//! Branch and tag references, revision specs and qualified open paths.

use vstd::prelude::*;

use crate::assoc::AssocMap;
use crate::model::{names_id, CommitId, VersionError, VersionResult};
use crate::text::{
    cat3, cut_once, decimal_text, has_char, rcut_once, read_unsigned, str_eq, str_order, Dup, Same,
};

verus! {

broadcast use vstd::string::group_string_axioms;

/// Namespace of a reference.
#[derive(Debug, Clone, Copy, PartialEq, Eq, Structural, Hash)]
pub enum RefNs {
    Heads,
    Tags,
}

impl DeepView for RefNs {
    type V = RefNs;

    open spec fn deep_view(&self) -> RefNs {
        *self
    }
}

/// The path segment of a namespace.
pub open spec fn ns_text(ns: RefNs) -> Seq<char> {
    match ns {
        RefNs::Heads => "heads"@,
        RefNs::Tags => "tags"@,
    }
}

impl RefNs {
    pub fn as_str(self) -> (r: &'static str)
        ensures
            r@ == ns_text(self),
    {
        match self {
            RefNs::Heads => "heads",
            RefNs::Tags => "tags",
        }
    }
}

/// A reference: its namespace and its name.
#[derive(Debug, Clone, PartialEq, Eq, Hash)]
pub struct RefName {
    pub ns: RefNs,
    pub name: String,
}

impl DeepView for RefName {
    type V = (RefNs, Seq<char>);

    open spec fn deep_view(&self) -> (RefNs, Seq<char>) {
        (self.ns, self.name@)
    }
}

impl Dup for RefName {
    fn dup(&self) -> (r: Self) {
        RefName { ns: self.ns, name: self.name.clone() }
    }
}

impl Same for RefName {
    fn same(&self, other: &Self) -> (r: bool) {
        self.ns == other.ns && self.name == other.name
    }
}

impl RefName {
    pub fn branch(name: &str) -> (r: Self)
        ensures
            r.deep_view() == (RefNs::Heads, name@),
    {
        RefName { ns: RefNs::Heads, name: name.to_owned() }
    }

    pub fn tag(name: &str) -> (r: Self)
        ensures
            r.deep_view() == (RefNs::Tags, name@),
    {
        RefName { ns: RefNs::Tags, name: name.to_owned() }
    }

    /// The path from the root of all references.
    pub fn full_path(&self) -> (r: String)
        ensures
            r@ == "refs/"@ + ns_text(self.ns) + "/"@ + self.name@,
    {
        let mut r = cat3("refs/", self.ns.as_str(), "/");
        r.append(self.name.as_str());
        r
    }

    /// The path within the references.
    pub fn to_string(&self) -> (r: String)
        ensures
            r@ == ns_text(self.ns) + "/"@ + self.name@,
    {
        cat3(self.ns.as_str(), "/", self.name.as_str())
    }
}

/// A parsed revision spec, over the type `S` of its texts.
#[derive(Debug, PartialEq, Eq)]
pub enum Revision<S = String> {
    /// The tip of the active branch.
    Head,
    /// The working set.
    Working,
    /// The staging area.
    Staged,
    /// A named branch.
    Branch(S),
    /// A named tag.
    Tag(S),
    /// A commit hash of forty hexadecimal digits.
    Hash(S),
    /// The ancestor N steps up the first parents, `~N`.
    Ancestor(Box<Revision<S>>, u32),
    /// The Nth parent, `^N`; `^0` is the first as well.
    Parent(Box<Revision<S>>, u32),
    /// `a..b`: the commits reachable from b but not from a.
    Range(Box<Revision<S>>, Box<Revision<S>>),
    /// `a...b`: from the merge base of a and b.
    SymmetricDifference(Box<Revision<S>>, Box<Revision<S>>),
}

/// What a revision stands for.
pub open spec fn revision_model(r: Revision) -> Revision<Seq<char>>
    decreases r,
{
    match r {
        Revision::Head => Revision::Head,
        Revision::Working => Revision::Working,
        Revision::Staged => Revision::Staged,
        Revision::Branch(s) => Revision::Branch(s@),
        Revision::Tag(s) => Revision::Tag(s@),
        Revision::Hash(s) => Revision::Hash(s@),
        Revision::Ancestor(b, n) => Revision::Ancestor(Box::new(revision_model(*b)), n),
        Revision::Parent(b, n) => Revision::Parent(Box::new(revision_model(*b)), n),
        Revision::Range(a, b) => Revision::Range(
            Box::new(revision_model(*a)),
            Box::new(revision_model(*b)),
        ),
        Revision::SymmetricDifference(a, b) => Revision::SymmetricDifference(
            Box::new(revision_model(*a)),
            Box::new(revision_model(*b)),
        ),
    }
}

impl DeepView for Revision {
    type V = Revision<Seq<char>>;

    open spec fn deep_view(&self) -> Revision<Seq<char>> {
        revision_model(*self)
    }
}

/// How a revision is written.
pub open spec fn revision_text(r: Revision<Seq<char>>) -> Seq<char>
    decreases r,
{
    match r {
        Revision::Head => "HEAD"@,
        Revision::Working => "WORKING"@,
        Revision::Staged => "STAGED"@,
        Revision::Branch(s) => s,
        Revision::Tag(s) => s,
        Revision::Hash(s) => s,
        Revision::Ancestor(b, n) => revision_text(*b) + "~"@ + crate::text::decimal(n as nat),
        Revision::Parent(b, n) => revision_text(*b) + "^"@ + crate::text::decimal(n as nat),
        Revision::Range(a, b) => revision_text(*a) + ".."@ + revision_text(*b),
        Revision::SymmetricDifference(a, b) => revision_text(*a) + "..."@ + revision_text(*b),
    }
}

impl Revision {
    /// How the revision is written.
    pub fn to_string(&self) -> (r: String)
        ensures
            r@ == revision_text(self.deep_view()),
        decreases self,
    {
        match self {
            Revision::Head => "HEAD".to_owned(),
            Revision::Working => "WORKING".to_owned(),
            Revision::Staged => "STAGED".to_owned(),
            Revision::Branch(s) => s.clone(),
            Revision::Tag(s) => s.clone(),
            Revision::Hash(s) => s.clone(),
            Revision::Ancestor(b, n) => {
                let base = b.to_string();
                cat3(base.as_str(), "~", decimal_text(*n as u64).as_str())
            },
            Revision::Parent(b, n) => {
                let base = b.to_string();
                cat3(base.as_str(), "^", decimal_text(*n as u64).as_str())
            },
            Revision::Range(a, b) => {
                let left = a.to_string();
                let right = b.to_string();
                cat3(left.as_str(), "..", right.as_str())
            },
            Revision::SymmetricDifference(a, b) => {
                let left = a.to_string();
                let right = b.to_string();
                cat3(left.as_str(), "...", right.as_str())
            },
        }
    }
}

/// A spec without a range and without a suffix: one of the reserved words in
/// upper or lower case, a hash of forty hexadecimal digits, or a branch name.
pub open spec fn revision_atom(s: Seq<char>) -> Result<
    Revision<Seq<char>>,
    VersionError<Seq<char>>,
> {
    if s.contains('^') || s.contains('~') {
        Err(VersionError::InvalidRevisionSpec(s))
    } else if s == "HEAD"@ || s == "head"@ {
        Ok(Revision::Head)
    } else if s == "WORKING"@ || s == "working"@ {
        Ok(Revision::Working)
    } else if s == "STAGED"@ || s == "staged"@ {
        Ok(Revision::Staged)
    } else if s.len() == 0 {
        Err(VersionError::InvalidRevisionSpec(s))
    } else if names_id(s) {
        Ok(Revision::Hash(s))
    } else {
        Ok(Revision::Branch(s))
    }
}

/// The revision that a text spells. The first `...` splits before the first
/// `..`; then the last numeric `^` suffix counts, then the last `~` suffix,
/// which must be numeric.
pub open spec fn revision_of(s: Seq<char>) -> Result<Revision<Seq<char>>, VersionError<Seq<char>>>
    decreases s.len(),
{
    match crate::text::split_once(s, seq!['.', '.', '.']) {
        Some((l, r)) => {
            proof {
                crate::text::lemma_split_once(s, seq!['.', '.', '.']);
            }
            match revision_of(l) {
                Err(e) => Err(e),
                Ok(a) => match revision_of(r) {
                    Err(e) => Err(e),
                    Ok(b) => Ok(Revision::SymmetricDifference(Box::new(a), Box::new(b))),
                },
            }
        },
        None => match crate::text::split_once(s, seq!['.', '.']) {
            Some((l, r)) => {
                proof {
                    crate::text::lemma_split_once(s, seq!['.', '.']);
                }
                match revision_of(l) {
                    Err(e) => Err(e),
                    Ok(a) => match revision_of(r) {
                        Err(e) => Err(e),
                        Ok(b) => Ok(Revision::Range(Box::new(a), Box::new(b))),
                    },
                }
            },
            None => {
                proof {
                    crate::text::lemma_rsplit_once(s, '^');
                    crate::text::lemma_rsplit_once(s, '~');
                }
                match numeric_suffix(s, '^') {
                    Some((base, n)) => match revision_of(base) {
                        Err(e) => Err(e),
                        Ok(b) => Ok(Revision::Parent(Box::new(b), n)),
                    },
                    None => match crate::text::rsplit_once(s, '~') {
                        Some(_) => match numeric_suffix(s, '~') {
                            Some((base, n)) => match revision_of(base) {
                                Err(e) => Err(e),
                                Ok(b) => Ok(Revision::Ancestor(Box::new(b), n)),
                            },
                            None => Err(VersionError::InvalidRevisionSpec(s)),
                        },
                        None => revision_atom(s),
                    },
                }
            },
        },
    }
}

/// The text before the last `c` and the number behind it, where there is one.
pub open spec fn numeric_suffix(s: Seq<char>, c: char) -> Option<(Seq<char>, u32)> {
    match crate::text::rsplit_once(s, c) {
        Some((base, n)) => match crate::text::parse_unsigned(n, u32::MAX as nat) {
            Some(k) => Some((base, k as u32)),
            None => None,
        },
        None => None,
    }
}

/// The text before the last `c` and the number behind it.
fn cut_numeric(s: &str, c: char) -> (r: Option<(String, u32)>)
    ensures
        match numeric_suffix(s@, c) {
            Some((base, n)) => r matches Some((b, k)) && b@ == base && k == n,
            None => r is None,
        },
{
    match rcut_once(s, c) {
        Some((base, n)) => match read_unsigned(n.as_str(), u32::MAX as u64) {
            Some(k) => Some((base, k as u32)),
            None => None,
        },
        None => None,
    }
}

/// Parse a spec without a range and without a suffix.
fn parse_atom(s: &str) -> (r: VersionResult<Revision>)
    ensures
        crate::model::outcome(r) == revision_atom(s@),
{
    if has_char(s, '^') || has_char(s, '~') {
        return Err(VersionError::InvalidRevisionSpec(s.to_owned()));
    }
    if str_eq(s, "HEAD") || str_eq(s, "head") {
        return Ok(Revision::Head);
    }
    if str_eq(s, "WORKING") || str_eq(s, "working") {
        return Ok(Revision::Working);
    }
    if str_eq(s, "STAGED") || str_eq(s, "staged") {
        return Ok(Revision::Staged);
    }
    if s.is_empty() {
        return Err(VersionError::InvalidRevisionSpec(s.to_owned()));
    }
    match CommitId::from_hex(s) {
        Ok(_) => Ok(Revision::Hash(s.to_owned())),
        Err(_) => Ok(Revision::Branch(s.to_owned())),
    }
}

/// Parse a revision spec such as `HEAD~3`, `main`, `a..b` or `a...b`.
pub fn parse_revision(s: &str) -> (r: VersionResult<Revision>)
    ensures
        crate::model::outcome(r) == revision_of(s@),
    decreases s@.len(),
{
    let three: Vec<char> = vec!['.', '.', '.'];
    assert(three@ =~= seq!['.', '.', '.']);
    if let Some((left, right)) = cut_once(s, &three) {
        proof {
            crate::text::lemma_split_once(s@, seq!['.', '.', '.']);
        }
        let a = match parse_revision(left.as_str()) {
            Ok(a) => a,
            Err(e) => {
                return Err(e);
            },
        };
        let b = match parse_revision(right.as_str()) {
            Ok(b) => b,
            Err(e) => {
                return Err(e);
            },
        };
        return Ok(Revision::SymmetricDifference(Box::new(a), Box::new(b)));
    }
    let two: Vec<char> = vec!['.', '.'];
    assert(two@ =~= seq!['.', '.']);
    if let Some((left, right)) = cut_once(s, &two) {
        proof {
            crate::text::lemma_split_once(s@, seq!['.', '.']);
        }
        let a = match parse_revision(left.as_str()) {
            Ok(a) => a,
            Err(e) => {
                return Err(e);
            },
        };
        let b = match parse_revision(right.as_str()) {
            Ok(b) => b,
            Err(e) => {
                return Err(e);
            },
        };
        return Ok(Revision::Range(Box::new(a), Box::new(b)));
    }
    proof {
        crate::text::lemma_rsplit_once(s@, '^');
        crate::text::lemma_rsplit_once(s@, '~');
    }
    if let Some((base, n)) = cut_numeric(s, '^') {
        return match parse_revision(base.as_str()) {
            Ok(b) => Ok(Revision::Parent(Box::new(b), n)),
            Err(e) => Err(e),
        };
    }
    if rcut_once(s, '~').is_some() {
        return match cut_numeric(s, '~') {
            Some((base, n)) => match parse_revision(base.as_str()) {
                Ok(b) => Ok(Revision::Ancestor(Box::new(b), n)),
                Err(e) => Err(e),
            },
            None => Err(VersionError::InvalidRevisionSpec(s.to_owned())),
        };
    }
    parse_atom(s)
}

/// The file and the revision that an open path names: the text behind the last
/// `@` is a revision; else the last `/` segment is one, where it is not empty,
/// holds no dot and reads as a revision; else the whole path is a file at its head.
pub open spec fn qualified(path: Seq<char>) -> Result<
    (Seq<char>, Revision<Seq<char>>),
    VersionError<Seq<char>>,
> {
    match crate::text::rsplit_once(path, '@') {
        Some((file, rev)) => match revision_of(rev) {
            Ok(r) => Ok((file, r)),
            Err(e) => Err(e),
        },
        None => match crate::text::rsplit_once(path, '/') {
            Some((file, rev)) => if rev.len() > 0 && !rev.contains('.') {
                match revision_of(rev) {
                    Ok(r) => Ok((file, r)),
                    Err(_) => Ok((path, Revision::Head)),
                }
            } else {
                Ok((path, Revision::Head))
            },
            None => Ok((path, Revision::Head)),
        },
    }
}

/// Parse an open path such as `my.db@branch` or `my.db/main~1`.
pub fn parse_qualified_path(path: &str) -> (r: VersionResult<(String, Revision)>)
    ensures
        crate::model::outcome(r) == qualified(path@),
{
    if let Some((file, rev)) = rcut_once(path, '@') {
        return match parse_revision(rev.as_str()) {
            Ok(r) => Ok((file, r)),
            Err(e) => Err(e),
        };
    }
    if let Some((file, rev)) = rcut_once(path, '/') {
        if !rev.as_str().is_empty() && !has_char(rev.as_str(), '.') {
            match parse_revision(rev.as_str()) {
                Ok(r) => {
                    return Ok((file, r));
                },
                Err(_) => {},
            }
        }
    }
    Ok((path.to_owned(), Revision::Head))
}

/// Another name of `parse_qualified_path`.
pub fn parse_qualified(path: &str) -> (r: VersionResult<(String, Revision)>)
    ensures
        crate::model::outcome(r) == qualified(path@),
{
    parse_qualified_path(path)
}

/// What a list of references stands for.
pub open spec fn ref_rows(v: Seq<(RefName, CommitId)>) -> Seq<(Seq<char>, Seq<u8>)> {
    v.map_values(|e: (RefName, CommitId)| (e.0.name@, e.1@))
}

/// Is `rows` the list of all references of `ns`, by name?
pub open spec fn lists_refs(
    refs: Map<(RefNs, Seq<char>), Seq<u8>>,
    ns: RefNs,
    rows: Seq<(Seq<char>, Seq<u8>)>,
) -> bool {
    &&& forall|i: int, j: int|
        0 <= i < j < rows.len() ==> crate::text::text_lt(
            (#[trigger] rows[i]).0,
            (#[trigger] rows[j]).0,
        )
    &&& forall|i: int|
        0 <= i < rows.len() ==> refs.dom().contains((ns, (#[trigger] rows[i]).0)) && refs[(
            ns,
            rows[i].0,
        )] == rows[i].1
    &&& forall|name: Seq<char>| #[trigger]
        refs.dom().contains((ns, name)) ==> exists|i: int|
            0 <= i < rows.len() && (#[trigger] rows[i]).0 == name
}

/// Stores references.
pub trait RefStore: Sized {
    /// The commit of each reference.
    spec fn refs(&self) -> Map<(RefNs, Seq<char>), Seq<u8>>;

    fn get(&self, name: &RefName) -> (r: Option<CommitId>)
        ensures
            r is Some <==> self.refs().dom().contains(name.deep_view()),
            r matches Some(id) ==> id@ == self.refs()[name.deep_view()],
    ;

    fn set(&mut self, name: &RefName, id: CommitId)
        ensures
            final(self).refs() == old(self).refs().insert(name.deep_view(), id@),
    ;

    fn delete(&mut self, name: &RefName) -> (r: bool)
        ensures
            r == old(self).refs().dom().contains(name.deep_view()),
            final(self).refs() == old(self).refs().remove(name.deep_view()),
    ;

    fn list(&self, ns: RefNs) -> (r: Vec<(RefName, CommitId)>)
        ensures
            lists_refs(self.refs(), ns, ref_rows(r@)),
            forall|i: int| 0 <= i < r@.len() ==> (#[trigger] r@[i]).0.ns == ns,
    ;

    fn get_branch(&self, name: &str) -> (r: Option<CommitId>)
        ensures
            r is Some <==> self.refs().dom().contains((RefNs::Heads, name@)),
            r matches Some(id) ==> id@ == self.refs()[(RefNs::Heads, name@)],
    {
        self.get(&RefName::branch(name))
    }

    fn get_tag(&self, name: &str) -> (r: Option<CommitId>)
        ensures
            r is Some <==> self.refs().dom().contains((RefNs::Tags, name@)),
            r matches Some(id) ==> id@ == self.refs()[(RefNs::Tags, name@)],
    {
        self.get(&RefName::tag(name))
    }

    fn create_branch(&mut self, name: &str, at: CommitId)
        ensures
            final(self).refs() == old(self).refs().insert((RefNs::Heads, name@), at@),
    {
        self.set(&RefName::branch(name), at)
    }

    fn delete_branch(&mut self, name: &str) -> (r: bool)
        ensures
            r == old(self).refs().dom().contains((RefNs::Heads, name@)),
            final(self).refs() == old(self).refs().remove((RefNs::Heads, name@)),
    {
        self.delete(&RefName::branch(name))
    }

    fn delete_tag(&mut self, name: &str) -> (r: bool)
        ensures
            r == old(self).refs().dom().contains((RefNs::Tags, name@)),
            final(self).refs() == old(self).refs().remove((RefNs::Tags, name@)),
    {
        self.delete(&RefName::tag(name))
    }

    fn list_branches(&self) -> (r: Vec<(RefName, CommitId)>)
        ensures
            lists_refs(self.refs(), RefNs::Heads, ref_rows(r@)),
    {
        self.list(RefNs::Heads)
    }

    fn list_tags(&self) -> (r: Vec<(RefName, CommitId)>)
        ensures
            lists_refs(self.refs(), RefNs::Tags, ref_rows(r@)),
    {
        self.list(RefNs::Tags)
    }
}

/// Outcome of a lost race.
#[derive(Debug, Clone, Copy, PartialEq, Eq, Structural)]
pub enum RefError {
    /// Another writer won.
    Busy,
}

impl RefError {
    /// The user-facing message.
    pub fn to_string(&self) -> (r: String)
        ensures
            r@ == "database is locked"@,
    {
        "database is locked".to_owned()
    }
}

/// References in memory.
#[derive(Debug, Clone)]
pub struct MemRefStore {
    pub refs: AssocMap<RefName, CommitId>,
}

impl Dup for MemRefStore {
    fn dup(&self) -> (r: Self) {
        MemRefStore { refs: self.refs.dup() }
    }
}

impl DeepView for MemRefStore {
    type V = Map<(RefNs, Seq<char>), Seq<u8>>;

    open spec fn deep_view(&self) -> Map<(RefNs, Seq<char>), Seq<u8>> {
        self.refs.deep_view()
    }
}

impl MemRefStore {
    pub fn new() -> (r: Self)
        ensures
            r.deep_view() == Map::<(RefNs, Seq<char>), Seq<u8>>::empty(),
    {
        MemRefStore { refs: AssocMap::new() }
    }

    /// Set `name` to `next` where it stands at `expected`; a reference that has
    /// moved, or that is there unexpectedly, is left alone.
    pub fn compare_and_swap(
        &mut self,
        name: &RefName,
        expected: Option<CommitId>,
        next: CommitId,
    ) -> (r: Result<(), RefError>)
        ensures
            r is Ok <==> (match expected {
                Some(id) => old(self).deep_view().dom().contains(name.deep_view()) && old(
                    self,
                ).deep_view()[name.deep_view()] == id@,
                None => !old(self).deep_view().dom().contains(name.deep_view()),
            }),
            r is Ok ==> final(self).deep_view() == old(self).deep_view().insert(
                name.deep_view(),
                next@,
            ),
            r is Err ==> final(self).deep_view() == old(self).deep_view(),
    {
        let current = match self.refs.get(name) {
            Some(id) => Some(*id),
            None => None,
        };
        if current.same(&expected) {
            self.refs.insert(name.dup(), next);
            Ok(())
        } else {
            Err(RefError::Busy)
        }
    }
}

impl Default for MemRefStore {
    fn default() -> (r: Self)
        ensures
            r.deep_view() == Map::<(RefNs, Seq<char>), Seq<u8>>::empty(),
    {
        Self::new()
    }
}

impl RefStore for MemRefStore {
    open spec fn refs(&self) -> Map<(RefNs, Seq<char>), Seq<u8>> {
        self.deep_view()
    }

    fn get(&self, name: &RefName) -> (r: Option<CommitId>) {
        match self.refs.get(name) {
            Some(id) => Some(*id),
            None => None,
        }
    }

    fn set(&mut self, name: &RefName, id: CommitId) {
        self.refs.insert(name.dup(), id);
    }

    fn delete(&mut self, name: &RefName) -> (r: bool) {
        self.refs.remove(name)
    }

    fn list(&self, ns: RefNs) -> (r: Vec<(RefName, CommitId)>) {
        let mut out: Vec<(RefName, CommitId)> = Vec::new();
        let mut i: usize = 0;
        let ghost all = self.refs.entries.deep_view();
        let ghost m = self.refs.deep_view();
        while i < self.refs.entries.len()
            invariant
                i <= self.refs.entries@.len(),
                all == self.refs.entries.deep_view(),
                m == self.refs.deep_view(),
                sorted_refs(ref_rows(out@)),
                forall|j: int|
                    0 <= j < out@.len() ==> (#[trigger] out@[j]).0.ns == ns && m.dom().contains(
                        (ns, out@[j].0.name@),
                    ) && m[(ns, out@[j].0.name@)] == out@[j].1@,
                forall|j: int|
                    0 <= j < i && (#[trigger] all[j]).0.0 == ns ==> exists|k: int|
                        0 <= k < out@.len() && (#[trigger] out@[k]).0.name@ == all[j].0.1,
            decreases self.refs.entries.len() - i,
        {
            let ghost before = out@;
            assert(all[i as int] == self.refs.entries@[i as int].deep_view());
            if self.refs.entries[i].0.ns == ns {
                let name = &self.refs.entries[i].0;
                proof {
                    crate::assoc::lemma_assoc_dom(all, name.deep_view());
                }
                if let Some(id) = self.refs.get(name) {
                    insert_ref(&mut out, name.dup(), *id);
                    proof {
                        assert forall|j: int| 0 <= j < out@.len() implies (
                        #[trigger] out@[j]).0.ns == ns && m.dom().contains((ns, out@[j].0.name@))
                            && m[(ns, out@[j].0.name@)] == out@[j].1@ by {}
                    }
                }
            }
            proof {
                assert forall|j: int| 0 <= j < i + 1 && (#[trigger] all[j]).0.0 == ns implies exists|
                    k: int,
                |
                    0 <= k < out@.len() && (#[trigger] out@[k]).0.name@ == all[j].0.1 by {
                    if j < i {
                        let k = choose|k: int|
                            0 <= k < before.len() && (#[trigger] before[k]).0.name@ == all[j].0.1;
                        assert(out@.contains(before[k]));
                    }
                }
            }
            i = i + 1;
        }
        proof {
            let rows = ref_rows(out@);
            assert forall|name: Seq<char>| #[trigger] m.dom().contains((ns, name)) implies exists|
                i: int,
            |
                0 <= i < rows.len() && (#[trigger] rows[i]).0 == name by {
                crate::assoc::lemma_assoc_dom(all, (ns, name));
                let j = choose|j: int| 0 <= j < all.len() && (#[trigger] all[j]).0 == (ns, name);
                let k = choose|k: int|
                    0 <= k < out@.len() && (#[trigger] out@[k]).0.name@ == all[j].0.1;
                assert(rows[k].0 == name);
            }
        }
        out
    }
}

spec fn sorted_refs(rows: Seq<(Seq<char>, Seq<u8>)>) -> bool {
    forall|i: int, j: int|
        0 <= i < j < rows.len() ==> crate::text::text_lt(
            (#[trigger] rows[i]).0,
            (#[trigger] rows[j]).0,
        )
}

/// Put a reference into a list sorted by name; a name that is there keeps its
/// entry.
fn insert_ref(v: &mut Vec<(RefName, CommitId)>, name: RefName, id: CommitId)
    requires
        sorted_refs(ref_rows(old(v)@)),
    ensures
        sorted_refs(ref_rows(final(v)@)),
        forall|k: int| 0 <= k < old(v)@.len() ==> final(v)@.contains(#[trigger] old(v)@[k]),
        forall|j: int|
            0 <= j < final(v)@.len() ==> #[trigger] final(v)@[j] == (name, id) || old(v)@.contains(
                final(v)@[j],
            ),
        exists|j: int|
            0 <= j < final(v)@.len() && (#[trigger] final(v)@[j]).0.name@ == name.name@,
{
    let ghost before = v@;
    let ghost rows = ref_rows(before);
    let ghost e = (name, id);
    let ghost t = name.name@;
    let mut i: usize = 0;
    while i < v.len()
        invariant
            i <= v.len(),
            *v == *old(v),
            before == v@,
            rows == ref_rows(before),
            t == name.name@,
            e == (name, id),
            sorted_refs(rows),
            forall|j: int| 0 <= j < i ==> crate::text::text_lt((#[trigger] rows[j]).0, t),
        decreases v.len() - i,
    {
        assert(rows[i as int].0 == v@[i as int].0.name@);
        match str_order(v[i].0.name.as_str(), name.name.as_str()) {
            crate::octets::Order::Before => {
                i = i + 1;
            },
            crate::octets::Order::Equal => {
                assert(v@[i as int].0.name@ == t);
                return ;
            },
            crate::octets::Order::After => {
                proof {
                    assert forall|j: int| i <= j < rows.len() implies crate::text::text_lt(
                        t,
                        (#[trigger] rows[j]).0,
                    ) by {
                        if j > i {
                            crate::octets::lemma_bytes_lt_trans(
                                crate::text::utf8(t),
                                crate::text::utf8(rows[i as int].0),
                                crate::text::utf8(rows[j].0),
                            );
                        }
                    }
                }
                v.insert(i, (name, id));
                proof {
                    lemma_insert_ref(before, i as int, e);
                }
                return ;
            },
        }
    }
    v.push((name, id));
    proof {
        lemma_insert_ref(before, i as int, e);
        assert(v@ =~= before.insert(i as int, e));
    }
}

proof fn lemma_insert_ref(s: Seq<(RefName, CommitId)>, i: int, e: (RefName, CommitId))
    requires
        sorted_refs(ref_rows(s)),
        0 <= i <= s.len(),
        forall|j: int|
            0 <= j < i ==> crate::text::text_lt((#[trigger] ref_rows(s)[j]).0, e.0.name@),
        forall|j: int|
            i <= j < s.len() ==> crate::text::text_lt(e.0.name@, (#[trigger] ref_rows(s)[j]).0),
    ensures
        sorted_refs(ref_rows(s.insert(i, e))),
        forall|k: int| 0 <= k < s.len() ==> s.insert(i, e).contains(#[trigger] s[k]),
        forall|j: int|
            0 <= j < s.len() + 1 ==> #[trigger] s.insert(i, e)[j] == e || s.contains(
                s.insert(i, e)[j],
            ),
        s.insert(i, e)[i] == e,
{
    let r = s.insert(i, e);
    let rows = ref_rows(r);
    let old_rows = ref_rows(s);
    assert forall|a: int, b: int| 0 <= a < b < rows.len() implies crate::text::text_lt(
        (#[trigger] rows[a]).0,
        (#[trigger] rows[b]).0,
    ) by {
        let x = if a < i {
            a
        } else {
            a - 1
        };
        let y = if b < i {
            b
        } else {
            b - 1
        };
        if a != i {
            assert(rows[a] == old_rows[x]);
        }
        if b != i {
            assert(rows[b] == old_rows[y]);
        }
    }
    assert forall|k: int| 0 <= k < s.len() implies r.contains(#[trigger] s[k]) by {
        let j = if k < i {
            k
        } else {
            k + 1
        };
        assert(r[j] == s[k]);
    }
    assert forall|j: int| 0 <= j < s.len() + 1 implies #[trigger] r[j] == e || s.contains(r[j]) by {
        if j < i {
            assert(r[j] == s[j]);
        } else if j > i {
            assert(r[j] == s[j - 1]);
        }
    }
}

/// The loser of a race for a reference is refused and changes nothing: after
/// one swap from a value, another swap from that value finds it gone.
pub proof fn law_second_swap_loses(
    refs: Map<(RefNs, Seq<char>), Seq<u8>>,
    name: (RefNs, Seq<char>),
    expected: Seq<u8>,
    next: Seq<u8>,
)
    requires
        refs.dom().contains(name),
        refs[name] == expected,
        next != expected,
    ensures
        ({
            let after = refs.insert(name, next);
            !(after.dom().contains(name) && after[name] == expected)
        }),
{
}

// ---------------------------------------------------------------------------
// Writing and reading revisions
// ---------------------------------------------------------------------------

/// Do two dots stand at `i`?
spec fn two_at(s: Seq<char>, i: int) -> bool {
    0 <= i && i + 1 < s.len() && s[i] == '.' && s[i + 1] == '.'
}

/// Do three dots stand at `i`?
spec fn three_at(s: Seq<char>, i: int) -> bool {
    two_at(s, i) && i + 2 < s.len() && s[i + 2] == '.'
}

spec fn without_two(s: Seq<char>) -> bool {
    forall|i: int| !#[trigger] two_at(s, i)
}

spec fn without_three(s: Seq<char>) -> bool {
    forall|i: int| !#[trigger] three_at(s, i)
}

proof fn lemma_first_two(s: Seq<char>)
    ensures
        match crate::text::split_once(s, seq!['.', '.']) {
            Some((l, r)) => s == l + seq!['.', '.'] + r && two_at(s, l.len() as int) && forall|j: int|
                j < l.len() ==> !#[trigger] two_at(s, j),
            None => without_two(s),
        },
{
    let pat = seq!['.', '.'];
    crate::text::lemma_find_first(s, pat, 0);
    assert forall|j: int| 0 <= j && j + 2 <= s.len() implies crate::text::stands_at(s, pat, j)
        == #[trigger] two_at(s, j) by {
        let part = s.subrange(j, j + 2);
        assert(part[0] == s[j] && part[1] == s[j + 1]);
        if two_at(s, j) {
            assert(part =~= pat);
        }
    }
    match crate::text::find_from(s, pat, 0) {
        Some(k) => {
            assert(two_at(s, k));
            assert(s =~= s.take(k) + pat + s.skip(k + 2));
            assert forall|j: int| j < k implies !#[trigger] two_at(s, j) by {
                if two_at(s, j) {
                    assert(crate::text::stands_at(s, pat, j));
                }
            }
        },
        None => {
            assert forall|j: int| !#[trigger] two_at(s, j) by {
                if two_at(s, j) {
                    assert(crate::text::stands_at(s, pat, j));
                }
            }
        },
    }
}

proof fn lemma_first_three(s: Seq<char>)
    ensures
        match crate::text::split_once(s, seq!['.', '.', '.']) {
            Some((l, r)) => s == l + seq!['.', '.', '.'] + r && three_at(s, l.len() as int)
                && forall|j: int| j < l.len() ==> !#[trigger] three_at(s, j),
            None => without_three(s),
        },
{
    let pat = seq!['.', '.', '.'];
    crate::text::lemma_find_first(s, pat, 0);
    assert forall|j: int| 0 <= j && j + 3 <= s.len() implies crate::text::stands_at(s, pat, j)
        == #[trigger] three_at(s, j) by {
        let part = s.subrange(j, j + 3);
        assert(part[0] == s[j] && part[1] == s[j + 1] && part[2] == s[j + 2]);
        if three_at(s, j) {
            assert(part =~= pat);
        }
    }
    match crate::text::find_from(s, pat, 0) {
        Some(k) => {
            assert(three_at(s, k));
            assert(s =~= s.take(k) + pat + s.skip(k + 3));
            assert forall|j: int| j < k implies !#[trigger] three_at(s, j) by {
                if three_at(s, j) {
                    assert(crate::text::stands_at(s, pat, j));
                }
            }
        },
        None => {
            assert forall|j: int| !#[trigger] three_at(s, j) by {
                if three_at(s, j) {
                    assert(crate::text::stands_at(s, pat, j));
                }
            }
        },
    }
}

/// A symmetric difference reads back from the texts of its sides.
proof fn lemma_read_difference(
    l: Seq<char>,
    r: Seq<char>,
    a: Revision<Seq<char>>,
    b: Revision<Seq<char>>,
)
    requires
        l.len() > 0,
        l.last() != '.',
        without_three(l),
        revision_of(l) == Ok::<Revision<Seq<char>>, VersionError<Seq<char>>>(a),
        revision_of(r) == Ok::<Revision<Seq<char>>, VersionError<Seq<char>>>(b),
    ensures
        revision_of(l + seq!['.', '.', '.'] + r) == Ok::<
            Revision<Seq<char>>,
            VersionError<Seq<char>>,
        >(Revision::SymmetricDifference(Box::new(a), Box::new(b))),
{
    let t = l + seq!['.', '.', '.'] + r;
    lemma_first_three(t);
    let n = l.len() as int;
    assert(three_at(t, n));
    assert forall|j: int| j < n implies !#[trigger] three_at(t, j) by {
        if three_at(t, j) {
            if j + 2 < n {
                assert(three_at(l, j));
            } else {
                assert(t[n - 1] == l.last());
            }
        }
    }
    let (x, y) = crate::text::split_once(t, seq!['.', '.', '.'])->0;
    assert(x.len() == n);
    assert(x =~= t.take(n) && l =~= t.take(n));
    assert(y =~= t.skip(n + 3) && r =~= t.skip(n + 3));
}

/// A range reads back from the texts of its sides.
proof fn lemma_read_range(
    l: Seq<char>,
    r: Seq<char>,
    a: Revision<Seq<char>>,
    b: Revision<Seq<char>>,
)
    requires
        l.len() > 0,
        l.last() != '.',
        without_two(l),
        r.len() > 0,
        r[0] != '.',
        without_three(r),
        revision_of(l) == Ok::<Revision<Seq<char>>, VersionError<Seq<char>>>(a),
        revision_of(r) == Ok::<Revision<Seq<char>>, VersionError<Seq<char>>>(b),
    ensures
        without_three(l + seq!['.', '.'] + r),
        revision_of(l + seq!['.', '.'] + r) == Ok::<Revision<Seq<char>>, VersionError<Seq<char>>>(
            Revision::Range(Box::new(a), Box::new(b)),
        ),
{
    let t = l + seq!['.', '.'] + r;
    let n = l.len() as int;
    assert forall|j: int| !#[trigger] three_at(t, j) by {
        if three_at(t, j) {
            if j + 1 < n {
                assert(two_at(l, j));
            } else if j < n {
                assert(t[n - 1] == l.last());
            } else if j <= n + 1 {
                assert(t[n + 2] == r[0]);
            } else {
                assert(three_at(r, j - n - 2));
            }
        }
    }
    lemma_first_three(t);
    lemma_first_two(t);
    assert(two_at(t, n));
    assert forall|j: int| j < n implies !#[trigger] two_at(t, j) by {
        if two_at(t, j) {
            if j + 1 < n {
                assert(two_at(l, j));
            } else {
                assert(t[n - 1] == l.last());
            }
        }
    }
    let (x, y) = crate::text::split_once(t, seq!['.', '.'])->0;
    assert(x.len() == n);
    assert(x =~= t.take(n) && l =~= t.take(n));
    assert(y =~= t.skip(n + 2) && r =~= t.skip(n + 2));
}

/// A text behind which a mark and a number stand.
proof fn lemma_suffixed(b: Seq<char>, c: char, n: u32)
    requires
        without_two(b),
        c == '^' || c == '~',
    ensures
        ({
            let t = b + seq![c] + crate::text::decimal(n as nat);
            &&& without_two(t)
            &&& without_three(t)
            &&& t.last() != '.'
            &&& crate::text::rsplit_once(t, c) == Some((b, crate::text::decimal(n as nat)))
            &&& numeric_suffix(t, c) == Some((b, n))
            &&& c == '~' ==> numeric_suffix(t, '^') is None
        }),
{
    let d = crate::text::decimal(n as nat);
    let t = b + seq![c] + d;
    let k = b.len() as int;
    crate::text::lemma_decimal_reads(n as nat, u32::MAX as nat);
    assert(t[k] == c);
    assert forall|j: int| k < j < t.len() implies crate::text::is_digit(#[trigger] t[j]) by {
        assert(t[j] == d[j - k - 1]);
    }
    assert forall|j: int| !#[trigger] two_at(t, j) by {
        if two_at(t, j) {
            if j + 1 < k {
                assert(two_at(b, j));
            } else if j + 1 > k {
                assert(crate::text::is_digit(t[j + 1]));
            }
        }
    }
    assert forall|j: int| !#[trigger] three_at(t, j) by {
        assert(!two_at(t, j));
    }
    assert(t.last() == d[d.len() - 1]);
    crate::text::lemma_last_index(t, c);
    assert(crate::text::last_index(t, c) == Some(k));
    assert(t.take(k) =~= b);
    assert(t.skip(k + 1) =~= d);
    if c == '~' {
        crate::text::lemma_last_index(t, '^');
        if let Some(i) = crate::text::last_index(t, '^') {
            assert(i < k);
            let tail = t.skip(i + 1);
            assert(tail[k - i - 1] == '~');
            if tail[0] == '+' {
                assert(tail.skip(1)[k - i - 2] == '~');
            }
            assert(crate::text::parse_unsigned(tail, u32::MAX as nat) is None);
        }
    }
}

/// What a text that reads as a revision has in common with how the revision is written.
spec fn written_alike(s: Seq<char>, t: Seq<char>) -> bool {
    &&& s.len() > 0
    &&& t.len() > 0
    &&& without_three(s) ==> without_three(t)
    &&& without_two(s) ==> without_two(t)
    &&& s[0] != '.' ==> t[0] != '.'
    &&& s.last() != '.' ==> t.last() != '.'
}

proof fn lemma_read_atom(s: Seq<char>)
    requires
        without_two(s),
        revision_of(s) == revision_atom(s),
        revision_of(s) is Ok,
    ensures
        ({
            let t = revision_text(revision_of(s)->Ok_0);
            written_alike(s, t) && revision_of(t) == revision_of(s)
        }),
{
    reveal_strlit("HEAD");
    reveal_strlit("WORKING");
    reveal_strlit("STAGED");
    reveal_strlit("head");
    reveal_strlit("working");
    reveal_strlit("staged");
    let t = revision_text(revision_of(s)->Ok_0);
    if t != s {
        assert(t == "HEAD"@ || t == "WORKING"@ || t == "STAGED"@);
        assert forall|i: int| 0 <= i < t.len() implies t[i] != '.' && t[i] != '^' && t[i]
            != '~' by {}
        assert(without_two(t));
        assert forall|j: int| !#[trigger] three_at(t, j) by {
            assert(!two_at(t, j));
        }
        lemma_first_three(t);
        lemma_first_two(t);
        crate::text::lemma_last_index(t, '^');
        crate::text::lemma_last_index(t, '~');
        assert(revision_of(t) == revision_atom(t));
    }
}

/// How the revision that a text reads as is written reads as the same and is alike.
spec fn reads_back(s: Seq<char>) -> bool {
    &&& revision_of(s) is Ok
    &&& written_alike(s, revision_text(revision_of(s)->Ok_0))
    &&& revision_of(revision_text(revision_of(s)->Ok_0)) == revision_of(s)
}

#[verifier::spinoff_prover]
proof fn lemma_difference_reads_back(s: Seq<char>, x: Seq<char>, y: Seq<char>)
    requires
        crate::text::split_once(s, seq!['.', '.', '.']) == Some((x, y)),
        reads_back(x),
        reads_back(y),
    ensures
        reads_back(s),
{
    lemma_first_three(s);
    reveal_strlit("...");
    let n = x.len() as int;
    let a = revision_of(x)->Ok_0;
    let b = revision_of(y)->Ok_0;
    let l = revision_text(a);
    let m = revision_text(b);
    assert(!three_at(s, n - 1));
    assert(s[n - 1] == x.last());
    assert(s[n] == '.' && s[n + 1] == '.');
    assert forall|j: int| !#[trigger] three_at(x, j) by {
        if three_at(x, j) {
            assert(three_at(s, j));
        }
    }
    lemma_read_difference(l, m, a, b);
    assert("..."@ =~= seq!['.', '.', '.']);
    let t = l + seq!['.', '.', '.'] + m;
    assert(revision_of(s) == Ok::<Revision<Seq<char>>, VersionError<Seq<char>>>(
        Revision::SymmetricDifference(Box::new(a), Box::new(b)),
    ));
    assert(revision_text(revision_of(s)->Ok_0) == t);
    assert(s[0] == x[0] && t[0] == l[0]);
    assert(s.last() == y.last() && t.last() == m.last());
    assert(two_at(s, n));
}

#[verifier::spinoff_prover]
proof fn lemma_range_reads_back(s: Seq<char>, x: Seq<char>, y: Seq<char>)
    requires
        crate::text::split_once(s, seq!['.', '.', '.']) is None,
        crate::text::split_once(s, seq!['.', '.']) == Some((x, y)),
        reads_back(x),
        reads_back(y),
    ensures
        reads_back(s),
{
    lemma_first_three(s);
    lemma_first_two(s);
    reveal_strlit("..");
    let n = x.len() as int;
    let a = revision_of(x)->Ok_0;
    let b = revision_of(y)->Ok_0;
    let l = revision_text(a);
    let m = revision_text(b);
    assert(!three_at(s, n - 1));
    assert(!three_at(s, n));
    assert(s[n - 1] == x.last());
    assert(s[n] == '.' && s[n + 1] == '.');
    assert(s[n + 2] == y[0]);
    assert forall|j: int| !#[trigger] two_at(x, j) by {
        if two_at(x, j) {
            assert(two_at(s, j));
        }
    }
    assert forall|j: int| !#[trigger] three_at(y, j) by {
        if three_at(y, j) {
            assert(s[j + n + 2] == y[j]);
            assert(s[j + n + 3] == y[j + 1]);
            assert(s[j + n + 4] == y[j + 2]);
            assert(three_at(s, j + n + 2));
        }
    }
    lemma_read_range(l, m, a, b);
    assert(".."@ =~= seq!['.', '.']);
    let t = l + seq!['.', '.'] + m;
    assert(revision_of(s) == Ok::<Revision<Seq<char>>, VersionError<Seq<char>>>(
        Revision::Range(Box::new(a), Box::new(b)),
    ));
    assert(revision_text(revision_of(s)->Ok_0) == t);
    assert(s[0] == x[0] && t[0] == l[0]);
    assert(s.last() == y.last() && t.last() == m.last());
    assert(two_at(s, n));
}

#[verifier::spinoff_prover]
proof fn lemma_revision_reads_back(s: Seq<char>)
    requires
        revision_of(s) is Ok,
    ensures
        reads_back(s),
    decreases s.len(),
{
    crate::text::lemma_split_once(s, seq!['.', '.', '.']);
    crate::text::lemma_split_once(s, seq!['.', '.']);
    if let Some((x, y)) = crate::text::split_once(s, seq!['.', '.', '.']) {
        lemma_revision_reads_back(x);
        lemma_revision_reads_back(y);
        lemma_difference_reads_back(s, x, y);
    } else if let Some((x, y)) = crate::text::split_once(s, seq!['.', '.']) {
        lemma_revision_reads_back(x);
        lemma_revision_reads_back(y);
        lemma_range_reads_back(s, x, y);
    } else {
        lemma_first_two(s);
        crate::text::lemma_rsplit_once(s, '^');
        crate::text::lemma_rsplit_once(s, '~');
        if let Some((base, n)) = numeric_suffix(s, '^') {
            lemma_revision_reads_back(base);
            reveal_strlit("^");
            assert("^"@ =~= seq!['^']);
            lemma_suffix_reads_back(s, '^', base, n);
        } else if let Some((base, n)) = numeric_suffix(s, '~') {
            lemma_revision_reads_back(base);
            reveal_strlit("~");
            assert("~"@ =~= seq!['~']);
            lemma_suffix_reads_back(s, '~', base, n);
        } else {
            lemma_read_atom(s);
        }
    }
}

/// A text with a number behind a mark is written alike and reads back where the text
/// in front does.
proof fn lemma_suffix_reads_back(s: Seq<char>, c: char, base: Seq<char>, n: u32)
    requires
        c == '^' || c == '~',
        without_two(s),
        numeric_suffix(s, c) == Some((base, n)),
        c == '~' ==> numeric_suffix(s, '^') is None,
        reads_back(base),
    ensures
        ({
            let b = revision_of(base)->Ok_0;
            let t = revision_text(b) + seq![c] + crate::text::decimal(n as nat);
            &&& written_alike(s, t)
            &&& revision_of(t) == Ok::<Revision<Seq<char>>, VersionError<Seq<char>>>(
                if c == '^' {
                    Revision::Parent(Box::new(b), n)
                } else {
                    Revision::Ancestor(Box::new(b), n)
                },
            )
        }),
{
    let b = revision_of(base)->Ok_0;
    let front = revision_text(b);
    let t = front + seq![c] + crate::text::decimal(n as nat);
    let k = base.len() as int;
    crate::text::lemma_last_index(s, c);
    assert(s[k] == c);
    assert forall|j: int| !#[trigger] two_at(base, j) by {
        if two_at(base, j) {
            assert(two_at(s, j));
        }
    }
    lemma_suffixed(front, c, n);
    lemma_first_three(t);
    lemma_first_two(t);
    assert(s[0] == base[0] && t[0] == front[0]);
}

/// How a parsed revision is written parses back to it.
pub proof fn law_revision_text_parses_back(s: Seq<char>)
    requires
        revision_of(s) is Ok,
    ensures
        revision_of(revision_text(revision_of(s)->Ok_0)) == revision_of(s),
{
    lemma_revision_reads_back(s);
}

/// Does a text hold no two dots in a row?
pub open spec fn holds_no_range(s: Seq<char>) -> bool {
    forall|i: int| 0 <= i && i + 1 < s.len() ==> !(#[trigger] s[i] == '.' && s[i + 1] == '.')
}

/// A revision with `~` and a number behind it reads as that ancestor of it, with `^` and a
/// number as that parent; two revisions with two dots between them read as their range, with
/// three dots as their symmetric difference.
pub proof fn law_suffixes_and_ranges_read(
    l: Seq<char>,
    r: Seq<char>,
    a: Revision<Seq<char>>,
    b: Revision<Seq<char>>,
    n: u32,
)
    requires
        l.len() > 0 && l.last() != '.' && holds_no_range(l),
        r.len() > 0 && r[0] != '.' && holds_no_range(r),
        revision_of(l) == Ok::<Revision<Seq<char>>, VersionError<Seq<char>>>(a),
        revision_of(r) == Ok::<Revision<Seq<char>>, VersionError<Seq<char>>>(b),
    ensures
        revision_of(l + seq!['~'] + crate::text::decimal(n as nat)) == Ok::<
            Revision<Seq<char>>,
            VersionError<Seq<char>>,
        >(Revision::Ancestor(Box::new(a), n)),
        revision_of(l + seq!['^'] + crate::text::decimal(n as nat)) == Ok::<
            Revision<Seq<char>>,
            VersionError<Seq<char>>,
        >(Revision::Parent(Box::new(a), n)),
        revision_of(l + seq!['.', '.'] + r) == Ok::<
            Revision<Seq<char>>,
            VersionError<Seq<char>>,
        >(Revision::Range(Box::new(a), Box::new(b))),
        revision_of(l + seq!['.', '.', '.'] + r) == Ok::<
            Revision<Seq<char>>,
            VersionError<Seq<char>>,
        >(Revision::SymmetricDifference(Box::new(a), Box::new(b))),
{
    assert forall|i: int| !#[trigger] two_at(l, i) by {
        if two_at(l, i) {
            assert(l[i] == '.');
        }
    }
    assert forall|i: int| !#[trigger] two_at(r, i) by {
        if two_at(r, i) {
            assert(r[i] == '.');
        }
    }
    assert(without_three(l)) by {
        assert forall|i: int| !#[trigger] three_at(l, i) by {
            assert(!two_at(l, i));
        }
    }
    assert(without_three(r)) by {
        assert forall|i: int| !#[trigger] three_at(r, i) by {
            assert(!two_at(r, i));
        }
    }
    lemma_read_difference(l, r, a, b);
    lemma_read_range(l, r, a, b);
    let up = l + seq!['~'] + crate::text::decimal(n as nat);
    let of = l + seq!['^'] + crate::text::decimal(n as nat);
    lemma_suffixed(l, '~', n);
    lemma_suffixed(l, '^', n);
    lemma_first_three(up);
    lemma_first_two(up);
    lemma_first_three(of);
    lemma_first_two(of);
}

/// The words of the head, the working set and the stage, in either case, forty hexadecimal
/// digits, and any other name without marks each read as what they are.
pub proof fn law_names_read(s: Seq<char>)
    requires
        holds_no_range(s),
        !s.contains('^') && !s.contains('~'),
        s.len() > 0,
    ensures
        ({
            let r = revision_of(s);
            if s == "HEAD"@ || s == "head"@ {
                r == Ok::<Revision<Seq<char>>, VersionError<Seq<char>>>(Revision::Head)
            } else if s == "WORKING"@ || s == "working"@ {
                r == Ok::<Revision<Seq<char>>, VersionError<Seq<char>>>(Revision::Working)
            } else if s == "STAGED"@ || s == "staged"@ {
                r == Ok::<Revision<Seq<char>>, VersionError<Seq<char>>>(Revision::Staged)
            } else if names_id(s) {
                r == Ok::<Revision<Seq<char>>, VersionError<Seq<char>>>(Revision::Hash(s))
            } else {
                r == Ok::<Revision<Seq<char>>, VersionError<Seq<char>>>(Revision::Branch(s))
            }
        }),
{
    assert forall|i: int| !#[trigger] two_at(s, i) by {
        if two_at(s, i) {
            assert(s[i] == '.');
        }
    }
    assert forall|i: int| !#[trigger] three_at(s, i) by {
        assert(!two_at(s, i));
    }
    lemma_first_three(s);
    lemma_first_two(s);
    crate::text::lemma_last_index(s, '^');
    crate::text::lemma_last_index(s, '~');
}

} // verus!
