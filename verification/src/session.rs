//! The branch that a connection is on.

use vstd::prelude::*;

use crate::model::{CommitId, VersionError, VersionResult};
use crate::refs::{RefName, RefNs};

verus! {

/// The branch of a connection, or the commit that it is pinned to.
#[derive(Debug, Clone, PartialEq, Eq)]
pub struct SessionBranch {
    current: Option<RefName>,
    detached: Option<CommitId>,
}

/// What the branch of a connection stands for.
pub struct SessionModel {
    pub current: Option<(RefNs, Seq<char>)>,
    pub detached: Option<Seq<u8>>,
}

impl DeepView for SessionBranch {
    type V = SessionModel;

    closed spec fn deep_view(&self) -> SessionModel {
        SessionModel { current: self.current.deep_view(), detached: self.detached.deep_view() }
    }
}

/// On a branch.
pub open spec fn on_branch(name: Seq<char>) -> SessionModel {
    SessionModel { current: Some((RefNs::Heads, name)), detached: None }
}

impl SessionBranch {
    pub fn new(branch: &str) -> (r: Self)
        ensures
            r.deep_view() == on_branch(branch@),
    {
        SessionBranch { current: Some(RefName::branch(branch)), detached: None }
    }

    /// Go to a branch and give up any pin.
    pub fn open_branch(&mut self, name: &str) -> (r: RefName)
        ensures
            final(self).deep_view() == on_branch(name@),
            r.deep_view() == (RefNs::Heads, name@),
    {
        self.current = Some(RefName::branch(name));
        self.detached = None;
        RefName::branch(name)
    }

    /// Pin the connection to a commit. Others moving or deleting a reference do
    /// not move what it sees.
    pub fn open_detached(&mut self, snapshot: CommitId)
        ensures
            final(self).deep_view() == (SessionModel { current: None, detached: Some(snapshot@) }),
    {
        self.current = None;
        self.detached = Some(snapshot);
    }

    /// Go back to a branch, which makes a pinned connection writable again.
    pub fn checkout(&mut self, name: &str)
        ensures
            final(self).deep_view() == on_branch(name@),
    {
        self.current = Some(RefName::branch(name));
        self.detached = None;
    }

    /// The branch; none while pinned.
    pub fn active_branch(&self) -> (r: Option<&RefName>)
        ensures
            match r {
                Some(b) => self.deep_view().current == Some(b.deep_view()),
                None => self.deep_view().current is None,
            },
    {
        match &self.current {
            Some(b) => Some(b),
            None => None,
        }
    }

    /// The pinned commit.
    pub fn snapshot(&self) -> (r: Option<CommitId>)
        ensures
            r.deep_view() == self.deep_view().detached,
    {
        self.detached
    }

    /// Writing is refused while pinned.
    pub fn guard_write(&self) -> (r: VersionResult<()>)
        ensures
            r is Ok <==> self.deep_view().detached is None,
            r matches Err(e) ==> e is DetachedHeadWrite,
    {
        if self.detached.is_some() {
            return Err(VersionError::DetachedHeadWrite);
        }
        Ok(())
    }
}

} // verus!
