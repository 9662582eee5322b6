//! Identifiers of content and commits, the file manifest, and the errors of
//! the version-control layer.

use vstd::prelude::*;

use crate::digest::{hex_of, unhex};
use crate::octets::{bytes_eq, push_all, push_be16, push_be32, read_be16, read_be32};
use crate::text::{cat2, cat3, cat5, decimal_text, Dup, Same};

verus! {

/// Is `s` the hexadecimal text of twenty bytes?
pub open spec fn names_id(s: Seq<char>) -> bool {
    s.len() == 40 && crate::digest::is_hex(s)
}

/// The twenty bytes a text names, if it names any.
fn id_bytes(s: &str) -> (r: Option<[u8; 20]>)
    ensures
        r is Some <==> names_id(s@),
        r matches Some(b) ==> b@ == crate::digest::hex_bytes(s@),
{
    match unhex(s) {
        None => None,
        Some(bytes) => {
            if bytes.len() != 20 {
                None
            } else {
                Some(array20(bytes.as_slice(), 0))
            }
        },
    }
}

/// The twenty bytes of `data` at `pos`.
pub fn array20(data: &[u8], pos: usize) -> (r: [u8; 20])
    requires
        pos + 20 <= data.len(),
    ensures
        r@ == data@.subrange(pos as int, pos + 20),
{
    let mut r: [u8; 20] = [0u8; 20];
    let mut i: usize = 0;
    while i < 20
        invariant
            i <= 20,
            pos + 20 <= data.len(),
            forall|j: int| 0 <= j < i ==> r@[j] == data@[pos + j],
        decreases 20 - i,
    {
        r[i] = data[pos + i];
        i = i + 1;
    }
    assert(r@ =~= data@.subrange(pos as int, pos + 20));
    r
}

/// Content address of a chunk.
#[derive(Copy, Clone, Eq, PartialOrd, Ord, Hash, Debug)]
pub struct ChunkHash(pub [u8; 20]);

impl View for ChunkHash {
    type V = Seq<u8>;

    open spec fn view(&self) -> Seq<u8> {
        self.0@
    }
}

impl DeepView for ChunkHash {
    type V = Seq<u8>;

    open spec fn deep_view(&self) -> Seq<u8> {
        self.0@
    }
}

impl PartialEq for ChunkHash {
    fn eq(&self, other: &Self) -> (r: bool) {
        let r = bytes_eq(vstd::array::array_as_slice(&self.0), vstd::array::array_as_slice(&other.0));
        assert(self.0@ == other.0@ ==> self.0 =~= other.0);
        r
    }
}

impl vstd::std_specs::cmp::PartialEqSpecImpl for ChunkHash {
    open spec fn obeys_eq_spec() -> bool {
        true
    }

    open spec fn eq_spec(&self, other: &Self) -> bool {
        self.0@ == other.0@
    }
}

impl Dup for ChunkHash {
    fn dup(&self) -> (r: Self) {
        *self
    }
}

impl Same for ChunkHash {
    fn same(&self, other: &Self) -> (r: bool) {
        *self == *other
    }
}

impl ChunkHash {
    /// The twenty bytes.
    pub fn as_bytes(&self) -> (r: &[u8; 20])
        ensures
            r@ == self@,
    {
        &self.0
    }

    /// The bytes as forty lower-case hexadecimal digits.
    pub fn to_hex(&self) -> (r: String)
        ensures
            r@ == crate::digest::hex_text(self@),
    {
        hex_of(vstd::array::array_as_slice(&self.0))
    }

    /// Read forty hexadecimal digits of either case; any other text is refused
    /// and named in the error.
    pub fn from_hex(s: &str) -> (r: Result<Self, StoreError>)
        ensures
            r is Ok <==> names_id(s@),
            r matches Ok(id) ==> id@ == crate::digest::hex_bytes(s@),
            r matches Err(e) ==> e.deep_view() == StoreError::<Seq<char>>::BadHash(s@),
    {
        match id_bytes(s) {
            Some(bytes) => Ok(ChunkHash(bytes)),
            None => Err(StoreError::BadHash(s.to_owned())),
        }
    }
}

/// Content address of an encoded commit.
#[derive(Copy, Clone, Eq, PartialOrd, Ord, Hash, Debug)]
pub struct CommitHash(pub [u8; 20]);

impl View for CommitHash {
    type V = Seq<u8>;

    open spec fn view(&self) -> Seq<u8> {
        self.0@
    }
}

impl DeepView for CommitHash {
    type V = Seq<u8>;

    open spec fn deep_view(&self) -> Seq<u8> {
        self.0@
    }
}

impl PartialEq for CommitHash {
    fn eq(&self, other: &Self) -> (r: bool) {
        let r = bytes_eq(vstd::array::array_as_slice(&self.0), vstd::array::array_as_slice(&other.0));
        assert(self.0@ == other.0@ ==> self.0 =~= other.0);
        r
    }
}

impl vstd::std_specs::cmp::PartialEqSpecImpl for CommitHash {
    open spec fn obeys_eq_spec() -> bool {
        true
    }

    open spec fn eq_spec(&self, other: &Self) -> bool {
        self.0@ == other.0@
    }
}

impl Dup for CommitHash {
    fn dup(&self) -> (r: Self) {
        *self
    }
}

impl Same for CommitHash {
    fn same(&self, other: &Self) -> (r: bool) {
        *self == *other
    }
}

impl CommitHash {
    /// The twenty bytes.
    pub fn as_bytes(&self) -> (r: &[u8; 20])
        ensures
            r@ == self@,
    {
        &self.0
    }

    /// The bytes as forty lower-case hexadecimal digits.
    pub fn to_hex(&self) -> (r: String)
        ensures
            r@ == crate::digest::hex_text(self@),
    {
        hex_of(vstd::array::array_as_slice(&self.0))
    }

    /// Read forty hexadecimal digits of either case; any other text is refused
    /// and named in the error.
    pub fn from_hex(s: &str) -> (r: Result<Self, StoreError>)
        ensures
            r is Ok <==> names_id(s@),
            r matches Ok(id) ==> id@ == crate::digest::hex_bytes(s@),
            r matches Err(e) ==> e.deep_view() == StoreError::<Seq<char>>::BadHash(s@),
    {
        match id_bytes(s) {
            Some(bytes) => Ok(CommitHash(bytes)),
            None => Err(StoreError::BadHash(s.to_owned())),
        }
    }
}

/// Identity of a commit in the version graph. Distinct from `ChunkHash` and
/// `CommitHash` although the bytes are interchangeable: a commit id refers to a
/// commit object, a chunk hash to content.
#[derive(Copy, Clone, Eq, PartialOrd, Ord, Hash, Debug)]
pub struct CommitId(pub [u8; 20]);

impl View for CommitId {
    type V = Seq<u8>;

    open spec fn view(&self) -> Seq<u8> {
        self.0@
    }
}

impl DeepView for CommitId {
    type V = Seq<u8>;

    open spec fn deep_view(&self) -> Seq<u8> {
        self.0@
    }
}

impl PartialEq for CommitId {
    fn eq(&self, other: &Self) -> (r: bool) {
        let r = bytes_eq(vstd::array::array_as_slice(&self.0), vstd::array::array_as_slice(&other.0));
        assert(self.0@ == other.0@ ==> self.0 =~= other.0);
        r
    }
}

impl vstd::std_specs::cmp::PartialEqSpecImpl for CommitId {
    open spec fn obeys_eq_spec() -> bool {
        true
    }

    open spec fn eq_spec(&self, other: &Self) -> bool {
        self.0@ == other.0@
    }
}

impl Dup for CommitId {
    fn dup(&self) -> (r: Self) {
        *self
    }
}

impl Same for CommitId {
    fn same(&self, other: &Self) -> (r: bool) {
        *self == *other
    }
}

impl CommitId {
    /// The twenty bytes.
    pub fn as_bytes(&self) -> (r: &[u8; 20])
        ensures
            r@ == self@,
    {
        &self.0
    }

    /// The bytes as forty lower-case hexadecimal digits.
    pub fn to_hex(&self) -> (r: String)
        ensures
            r@ == crate::digest::hex_text(self@),
    {
        hex_of(vstd::array::array_as_slice(&self.0))
    }

    /// Read forty hexadecimal digits of either case; any other text is refused
    /// and named in the error.
    pub fn from_hex(s: &str) -> (r: Result<Self, VersionError>)
        ensures
            r is Ok <==> names_id(s@),
            r matches Ok(id) ==> id@ == crate::digest::hex_bytes(s@),
            r matches Err(e) ==> e.deep_view() == VersionError::<Seq<char>>::CommitNotFound(s@),
    {
        match id_bytes(s) {
            Some(bytes) => Ok(CommitId(bytes)),
            None => Err(VersionError::CommitNotFound(s.to_owned())),
        }
    }
}

/// Root tree hash of a commit.
#[derive(Copy, Clone, Eq, PartialOrd, Ord, Hash, Debug)]
pub struct RootHash(pub [u8; 20]);

impl View for RootHash {
    type V = Seq<u8>;

    open spec fn view(&self) -> Seq<u8> {
        self.0@
    }
}

impl DeepView for RootHash {
    type V = Seq<u8>;

    open spec fn deep_view(&self) -> Seq<u8> {
        self.0@
    }
}

impl PartialEq for RootHash {
    fn eq(&self, other: &Self) -> (r: bool) {
        let r = bytes_eq(vstd::array::array_as_slice(&self.0), vstd::array::array_as_slice(&other.0));
        assert(self.0@ == other.0@ ==> self.0 =~= other.0);
        r
    }
}

impl vstd::std_specs::cmp::PartialEqSpecImpl for RootHash {
    open spec fn obeys_eq_spec() -> bool {
        true
    }

    open spec fn eq_spec(&self, other: &Self) -> bool {
        self.0@ == other.0@
    }
}

impl Dup for RootHash {
    fn dup(&self) -> (r: Self) {
        *self
    }
}

impl Same for RootHash {
    fn same(&self, other: &Self) -> (r: bool) {
        *self == *other
    }
}

impl RootHash {
    /// The twenty bytes.
    pub fn as_bytes(&self) -> (r: &[u8; 20])
        ensures
            r@ == self@,
    {
        &self.0
    }

    /// The bytes as forty lower-case hexadecimal digits.
    pub fn to_hex(&self) -> (r: String)
        ensures
            r@ == crate::digest::hex_text(self@),
    {
        hex_of(vstd::array::array_as_slice(&self.0))
    }

    /// Read forty hexadecimal digits of either case; any other text is refused
    /// and named in the error.
    pub fn from_hex(s: &str) -> (r: Result<Self, StoreError>)
        ensures
            r is Ok <==> names_id(s@),
            r matches Ok(id) ==> id@ == crate::digest::hex_bytes(s@),
            r matches Err(e) ==> e.deep_view() == StoreError::<Seq<char>>::BadHash(s@),
    {
        match id_bytes(s) {
            Some(bytes) => Ok(RootHash(bytes)),
            None => Err(StoreError::BadHash(s.to_owned())),
        }
    }
}

/// The constants that open a database file.
pub struct FileMagic;

impl FileMagic {
    pub const DLTC: u32 = 0x444C5443;

    pub const FORMAT_VERSION: u16 = 12;
}

/// Flag bits of a tree node.
#[derive(Copy, Clone, Debug)]
pub struct NodeFlags(pub u16);

impl NodeFlags {
    pub const INTKEY: u16 = 0x01;

    pub const BLOBKEY: u16 = 0x02;

    pub const COUNTS: u16 = 0x04;

    /// Is any bit of `flag` set?
    pub fn contains(self, flag: NodeFlags) -> (r: bool)
        ensures
            r == (self.0 & flag.0 != 0),
    {
        (self.0 & flag.0) != 0
    }
}

impl std::ops::BitOr for NodeFlags {
    type Output = NodeFlags;

    fn bitor(self, rhs: NodeFlags) -> (r: NodeFlags) {
        NodeFlags(self.0 | rhs.0)
    }
}

impl vstd::std_specs::ops::BitOrSpecImpl for NodeFlags {
    open spec fn obeys_bitor_spec() -> bool {
        true
    }

    open spec fn bitor_req(self, rhs: NodeFlags) -> bool {
        true
    }

    open spec fn bitor_spec(self, rhs: NodeFlags) -> NodeFlags {
        NodeFlags(self.0 | rhs.0)
    }
}

/// A union of flags contains what either side contains.
pub proof fn law_flags_union(a: NodeFlags, b: NodeFlags, flag: NodeFlags)
    ensures
        ((a.0 | b.0) & flag.0 != 0) <==> (a.0 & flag.0 != 0) || (b.0 & flag.0 != 0),
{
    let (x, y, z) = (a.0, b.0, flag.0);
    assert(((x | y) & z != 0) <==> (x & z != 0) || (y & z != 0)) by (bit_vector);
}

/// Errors of the version-control layer, over the type `S` of their texts. The
/// messages are user-facing and shown verbatim.
#[derive(Debug, Clone, PartialEq, Eq)]
pub enum VersionError<S = String> {
    Conflicts,
    Violations,
    NothingToCommit,
    BranchAlreadyExists(S),
    BranchNotFound(S),
    TagNotFound(S),
    CommitNotFound(S),
    InvalidRevisionSpec(S),
    InvalidAuthor,
    DetachedHeadWrite,
    TableNotFound(S),
    DatabaseLocked,
    IncorrectArity(S),
    InvalidCommitEncoding,
    CommitGraphCycle(S),
    TableHasNoPrimaryKey(S),
    AtRefRequired(S),
    SchemaConflict(S, S),
    InvalidResolveSide(S),
    CherryPickMergeNeedsParent(usize),
    RebaseConflict(S),
    NoRebaseInProgress,
    NoMergeInProgress,
    MergeInProgress,
    RebaseInProgress,
    InvalidSchema(S),
    NoConflict(S),
    WorkWrite(S),
    UsageDoltRemote,
    ActionAndNameRequired,
    UrlRequiredForAdd,
    TooManyArguments,
    RemoteNameInvalid,
    RemoteAlreadyExists,
    RemoteNotFound,
    UnknownRemoteAction,
    RemoteAndBranchRequired,
    UnknownOption(S),
    UsageDoltFetch,
    RemoteNameRequired,
    BranchNameRequired,
    FetchBranchNotFound,
    FailedReadRemoteRefs,
    FetchFailed,
    UsageDoltPull,
    TrackingNotFoundAfterFetch,
    PullNonCurrentNotFastForward,
    PullUncommittedChanges,
    PullLazyNonFF,
    PushNotFastForward,
    UsageDoltClone,
    UrlRequired,
    CloneNotEmpty,
    GcRequiresExclusiveAccess,
    NoCredentials,
    NoSuchCredential,
    UsageDoltCreds,
    BadRemoteUrl,
    ChunkNotFound(S),
    ChunkVerificationFailed(S),
    VacuumIntoUnsupported,
    InvalidSnapshotEncoding,
    RemoteStorageFailed(S),
}

impl DeepView for VersionError {
    type V = VersionError<Seq<char>>;

    open spec fn deep_view(&self) -> VersionError<Seq<char>> {
        match *self {
            VersionError::Conflicts => VersionError::Conflicts,
            VersionError::Violations => VersionError::Violations,
            VersionError::NothingToCommit => VersionError::NothingToCommit,
            VersionError::BranchAlreadyExists(a) => VersionError::BranchAlreadyExists(a@),
            VersionError::BranchNotFound(a) => VersionError::BranchNotFound(a@),
            VersionError::TagNotFound(a) => VersionError::TagNotFound(a@),
            VersionError::CommitNotFound(a) => VersionError::CommitNotFound(a@),
            VersionError::InvalidRevisionSpec(a) => VersionError::InvalidRevisionSpec(a@),
            VersionError::InvalidAuthor => VersionError::InvalidAuthor,
            VersionError::DetachedHeadWrite => VersionError::DetachedHeadWrite,
            VersionError::TableNotFound(a) => VersionError::TableNotFound(a@),
            VersionError::DatabaseLocked => VersionError::DatabaseLocked,
            VersionError::IncorrectArity(a) => VersionError::IncorrectArity(a@),
            VersionError::InvalidCommitEncoding => VersionError::InvalidCommitEncoding,
            VersionError::CommitGraphCycle(a) => VersionError::CommitGraphCycle(a@),
            VersionError::TableHasNoPrimaryKey(a) => VersionError::TableHasNoPrimaryKey(a@),
            VersionError::AtRefRequired(a) => VersionError::AtRefRequired(a@),
            VersionError::SchemaConflict(a, b) => VersionError::SchemaConflict(a@, b@),
            VersionError::InvalidResolveSide(a) => VersionError::InvalidResolveSide(a@),
            VersionError::CherryPickMergeNeedsParent(a) => VersionError::CherryPickMergeNeedsParent(a),
            VersionError::RebaseConflict(a) => VersionError::RebaseConflict(a@),
            VersionError::NoRebaseInProgress => VersionError::NoRebaseInProgress,
            VersionError::NoMergeInProgress => VersionError::NoMergeInProgress,
            VersionError::MergeInProgress => VersionError::MergeInProgress,
            VersionError::RebaseInProgress => VersionError::RebaseInProgress,
            VersionError::InvalidSchema(a) => VersionError::InvalidSchema(a@),
            VersionError::NoConflict(a) => VersionError::NoConflict(a@),
            VersionError::WorkWrite(a) => VersionError::WorkWrite(a@),
            VersionError::UsageDoltRemote => VersionError::UsageDoltRemote,
            VersionError::ActionAndNameRequired => VersionError::ActionAndNameRequired,
            VersionError::UrlRequiredForAdd => VersionError::UrlRequiredForAdd,
            VersionError::TooManyArguments => VersionError::TooManyArguments,
            VersionError::RemoteNameInvalid => VersionError::RemoteNameInvalid,
            VersionError::RemoteAlreadyExists => VersionError::RemoteAlreadyExists,
            VersionError::RemoteNotFound => VersionError::RemoteNotFound,
            VersionError::UnknownRemoteAction => VersionError::UnknownRemoteAction,
            VersionError::RemoteAndBranchRequired => VersionError::RemoteAndBranchRequired,
            VersionError::UnknownOption(a) => VersionError::UnknownOption(a@),
            VersionError::UsageDoltFetch => VersionError::UsageDoltFetch,
            VersionError::RemoteNameRequired => VersionError::RemoteNameRequired,
            VersionError::BranchNameRequired => VersionError::BranchNameRequired,
            VersionError::FetchBranchNotFound => VersionError::FetchBranchNotFound,
            VersionError::FailedReadRemoteRefs => VersionError::FailedReadRemoteRefs,
            VersionError::FetchFailed => VersionError::FetchFailed,
            VersionError::UsageDoltPull => VersionError::UsageDoltPull,
            VersionError::TrackingNotFoundAfterFetch => VersionError::TrackingNotFoundAfterFetch,
            VersionError::PullNonCurrentNotFastForward => VersionError::PullNonCurrentNotFastForward,
            VersionError::PullUncommittedChanges => VersionError::PullUncommittedChanges,
            VersionError::PullLazyNonFF => VersionError::PullLazyNonFF,
            VersionError::PushNotFastForward => VersionError::PushNotFastForward,
            VersionError::UsageDoltClone => VersionError::UsageDoltClone,
            VersionError::UrlRequired => VersionError::UrlRequired,
            VersionError::CloneNotEmpty => VersionError::CloneNotEmpty,
            VersionError::GcRequiresExclusiveAccess => VersionError::GcRequiresExclusiveAccess,
            VersionError::NoCredentials => VersionError::NoCredentials,
            VersionError::NoSuchCredential => VersionError::NoSuchCredential,
            VersionError::UsageDoltCreds => VersionError::UsageDoltCreds,
            VersionError::BadRemoteUrl => VersionError::BadRemoteUrl,
            VersionError::ChunkNotFound(a) => VersionError::ChunkNotFound(a@),
            VersionError::ChunkVerificationFailed(a) => VersionError::ChunkVerificationFailed(a@),
            VersionError::VacuumIntoUnsupported => VersionError::VacuumIntoUnsupported,
            VersionError::InvalidSnapshotEncoding => VersionError::InvalidSnapshotEncoding,
            VersionError::RemoteStorageFailed(a) => VersionError::RemoteStorageFailed(a@),
        }
    }
}

/// The message of each error.
pub open spec fn version_message(e: VersionError<Seq<char>>) -> Seq<char> {
    match e {
        VersionError::Conflicts => "cannot commit: unresolved merge conflicts"@,
        VersionError::Violations => "cannot commit: constraint violations remain"@,
        VersionError::NothingToCommit => "nothing to commit"@,
        VersionError::BranchAlreadyExists(a) => "branch '"@ + a + "' already exists"@,
        VersionError::BranchNotFound(a) => "branch not found: "@ + a,
        VersionError::TagNotFound(a) => "tag not found: "@ + a,
        VersionError::CommitNotFound(a) => "commit not found: "@ + a,
        VersionError::InvalidRevisionSpec(a) => "invalid revision spec: '"@ + a + "'"@,
        VersionError::InvalidAuthor => "invalid author: user.name and user.email must be set"@,
        VersionError::DetachedHeadWrite => "cannot write in detached HEAD state"@,
        VersionError::TableNotFound(a) => "table not found: "@ + a,
        VersionError::DatabaseLocked => "database is locked"@,
        VersionError::IncorrectArity(a) => "incorrect number of arguments to "@ + a,
        VersionError::InvalidCommitEncoding => "invalid commit encoding"@,
        VersionError::CommitGraphCycle(a) => "commit graph contains a cycle at "@ + a,
        VersionError::TableHasNoPrimaryKey(a) => "table has no primary key: "@ + a,
        VersionError::AtRefRequired(a) => "ref required: dolt_at_"@ + a + " needs a revision argument"@,
        VersionError::SchemaConflict(a, b) => "schema conflict in table: "@ + a + " ("@ + b + ")"@,
        VersionError::InvalidResolveSide(a) => "invalid resolve side: '"@ + a + "' (want '--ours' or '--theirs')"@,
        VersionError::CherryPickMergeNeedsParent(a) => "cherry-pick of merge commit needs -m PARENT (got "@ + crate::text::decimal(a as nat) + " parents)"@,
        VersionError::RebaseConflict(a) => "rebase conflict at "@ + a + ": resolve and --continue"@,
        VersionError::NoRebaseInProgress => "no rebase in progress"@,
        VersionError::NoMergeInProgress => "no merge in progress"@,
        VersionError::MergeInProgress => "merge already in progress"@,
        VersionError::RebaseInProgress => "rebase already in progress"@,
        VersionError::InvalidSchema(a) => "invalid schema for table: "@ + a,
        VersionError::NoConflict(a) => "no conflict found for table '"@ + a + "'"@,
        VersionError::WorkWrite(a) => "failed to write working set to SQL: "@ + a,
        VersionError::UsageDoltRemote => "usage: dolt_remote(action, name [, url])"@,
        VersionError::ActionAndNameRequired => "action and name required"@,
        VersionError::UrlRequiredForAdd => "url required for add"@,
        VersionError::TooManyArguments => "too many arguments"@,
        VersionError::RemoteNameInvalid => "remote name invalid"@,
        VersionError::RemoteAlreadyExists => "remote already exists"@,
        VersionError::RemoteNotFound => "remote not found"@,
        VersionError::UnknownRemoteAction => "unknown action: use 'add' or 'remove'"@,
        VersionError::RemoteAndBranchRequired => "remote and branch required"@,
        VersionError::UnknownOption(a) => "unknown option: "@ + a,
        VersionError::UsageDoltFetch => "usage: dolt_fetch(remote [, branch])"@,
        VersionError::RemoteNameRequired => "remote name required"@,
        VersionError::BranchNameRequired => "branch name required"@,
        VersionError::FetchBranchNotFound => "fetch failed: branch not found on remote"@,
        VersionError::FailedReadRemoteRefs => "failed to read remote refs"@,
        VersionError::FetchFailed => "fetch failed"@,
        VersionError::UsageDoltPull => "usage: dolt_pull(remote, branch)"@,
        VersionError::TrackingNotFoundAfterFetch => "tracking branch not found after fetch"@,
        VersionError::PullNonCurrentNotFastForward => "cannot pull non-current branch without fast-forward"@,
        VersionError::PullUncommittedChanges => "cannot pull with uncommitted changes"@,
        VersionError::PullLazyNonFF => "cannot merge a non-fast-forward pull in a lazy store; materialize the store first"@,
        VersionError::PushNotFastForward => "not a fast-forward of the remote branch (use force to overwrite)"@,
        VersionError::UsageDoltClone => "usage: dolt_clone(['--lazy'], url)"@,
        VersionError::UrlRequired => "url required"@,
        VersionError::CloneNotEmpty => "database is not empty — clone into a fresh database"@,
        VersionError::GcRequiresExclusiveAccess => "gc requires exclusive access"@,
        VersionError::NoCredentials => "no credentials; run SELECT dolt_creds_new()"@,
        VersionError::NoSuchCredential => "no such credential"@,
        VersionError::UsageDoltCreds => "usage: dolt_creds('rm', <kid>)"@,
        VersionError::BadRemoteUrl => "failed to open remote (URL must start with file:// or mem://)"@,
        VersionError::ChunkNotFound(a) => "chunk not found: "@ + a,
        VersionError::ChunkVerificationFailed(a) => "chunk verification failed: "@ + a,
        VersionError::VacuumIntoUnsupported => "VACUUM INTO is not supported for versioned databases"@,
        VersionError::InvalidSnapshotEncoding => "invalid snapshot encoding"@,
        VersionError::RemoteStorageFailed(a) => "remote storage failed: "@ + a,
    }
}

impl VersionError {
    /// The user-facing message.
    pub fn to_string(&self) -> (r: String)
        ensures
            r@ == version_message(self.deep_view()),
    {
        match self {
            VersionError::Conflicts => "cannot commit: unresolved merge conflicts".to_owned(),
            VersionError::Violations => "cannot commit: constraint violations remain".to_owned(),
            VersionError::NothingToCommit => "nothing to commit".to_owned(),
            VersionError::BranchAlreadyExists(a) => cat3("branch '", a.as_str(), "' already exists"),
            VersionError::BranchNotFound(a) => cat2("branch not found: ", a.as_str()),
            VersionError::TagNotFound(a) => cat2("tag not found: ", a.as_str()),
            VersionError::CommitNotFound(a) => cat2("commit not found: ", a.as_str()),
            VersionError::InvalidRevisionSpec(a) => cat3("invalid revision spec: '", a.as_str(), "'"),
            VersionError::InvalidAuthor => "invalid author: user.name and user.email must be set".to_owned(),
            VersionError::DetachedHeadWrite => "cannot write in detached HEAD state".to_owned(),
            VersionError::TableNotFound(a) => cat2("table not found: ", a.as_str()),
            VersionError::DatabaseLocked => "database is locked".to_owned(),
            VersionError::IncorrectArity(a) => cat2("incorrect number of arguments to ", a.as_str()),
            VersionError::InvalidCommitEncoding => "invalid commit encoding".to_owned(),
            VersionError::CommitGraphCycle(a) => cat2("commit graph contains a cycle at ", a.as_str()),
            VersionError::TableHasNoPrimaryKey(a) => cat2("table has no primary key: ", a.as_str()),
            VersionError::AtRefRequired(a) => cat3("ref required: dolt_at_", a.as_str(), " needs a revision argument"),
            VersionError::SchemaConflict(a, b) => cat5("schema conflict in table: ", a.as_str(), " (", b.as_str(), ")"),
            VersionError::InvalidResolveSide(a) => cat3("invalid resolve side: '", a.as_str(), "' (want '--ours' or '--theirs')"),
            VersionError::CherryPickMergeNeedsParent(a) => cat3("cherry-pick of merge commit needs -m PARENT (got ", decimal_text(*a as u64).as_str(), " parents)"),
            VersionError::RebaseConflict(a) => cat3("rebase conflict at ", a.as_str(), ": resolve and --continue"),
            VersionError::NoRebaseInProgress => "no rebase in progress".to_owned(),
            VersionError::NoMergeInProgress => "no merge in progress".to_owned(),
            VersionError::MergeInProgress => "merge already in progress".to_owned(),
            VersionError::RebaseInProgress => "rebase already in progress".to_owned(),
            VersionError::InvalidSchema(a) => cat2("invalid schema for table: ", a.as_str()),
            VersionError::NoConflict(a) => cat3("no conflict found for table '", a.as_str(), "'"),
            VersionError::WorkWrite(a) => cat2("failed to write working set to SQL: ", a.as_str()),
            VersionError::UsageDoltRemote => "usage: dolt_remote(action, name [, url])".to_owned(),
            VersionError::ActionAndNameRequired => "action and name required".to_owned(),
            VersionError::UrlRequiredForAdd => "url required for add".to_owned(),
            VersionError::TooManyArguments => "too many arguments".to_owned(),
            VersionError::RemoteNameInvalid => "remote name invalid".to_owned(),
            VersionError::RemoteAlreadyExists => "remote already exists".to_owned(),
            VersionError::RemoteNotFound => "remote not found".to_owned(),
            VersionError::UnknownRemoteAction => "unknown action: use 'add' or 'remove'".to_owned(),
            VersionError::RemoteAndBranchRequired => "remote and branch required".to_owned(),
            VersionError::UnknownOption(a) => cat2("unknown option: ", a.as_str()),
            VersionError::UsageDoltFetch => "usage: dolt_fetch(remote [, branch])".to_owned(),
            VersionError::RemoteNameRequired => "remote name required".to_owned(),
            VersionError::BranchNameRequired => "branch name required".to_owned(),
            VersionError::FetchBranchNotFound => "fetch failed: branch not found on remote".to_owned(),
            VersionError::FailedReadRemoteRefs => "failed to read remote refs".to_owned(),
            VersionError::FetchFailed => "fetch failed".to_owned(),
            VersionError::UsageDoltPull => "usage: dolt_pull(remote, branch)".to_owned(),
            VersionError::TrackingNotFoundAfterFetch => "tracking branch not found after fetch".to_owned(),
            VersionError::PullNonCurrentNotFastForward => "cannot pull non-current branch without fast-forward".to_owned(),
            VersionError::PullUncommittedChanges => "cannot pull with uncommitted changes".to_owned(),
            VersionError::PullLazyNonFF => "cannot merge a non-fast-forward pull in a lazy store; materialize the store first".to_owned(),
            VersionError::PushNotFastForward => "not a fast-forward of the remote branch (use force to overwrite)".to_owned(),
            VersionError::UsageDoltClone => "usage: dolt_clone(['--lazy'], url)".to_owned(),
            VersionError::UrlRequired => "url required".to_owned(),
            VersionError::CloneNotEmpty => "database is not empty — clone into a fresh database".to_owned(),
            VersionError::GcRequiresExclusiveAccess => "gc requires exclusive access".to_owned(),
            VersionError::NoCredentials => "no credentials; run SELECT dolt_creds_new()".to_owned(),
            VersionError::NoSuchCredential => "no such credential".to_owned(),
            VersionError::UsageDoltCreds => "usage: dolt_creds('rm', <kid>)".to_owned(),
            VersionError::BadRemoteUrl => "failed to open remote (URL must start with file:// or mem://)".to_owned(),
            VersionError::ChunkNotFound(a) => cat2("chunk not found: ", a.as_str()),
            VersionError::ChunkVerificationFailed(a) => cat2("chunk verification failed: ", a.as_str()),
            VersionError::VacuumIntoUnsupported => "VACUUM INTO is not supported for versioned databases".to_owned(),
            VersionError::InvalidSnapshotEncoding => "invalid snapshot encoding".to_owned(),
            VersionError::RemoteStorageFailed(a) => cat2("remote storage failed: ", a.as_str()),
        }
    }
}

/// Outcome of a version-control operation.
pub type VersionResult<T> = Result<T, VersionError>;

/// Errors of the chunk store, over the type `S` of their texts.
#[derive(Debug, Clone, PartialEq, Eq)]
pub enum StoreError<S = String> {
    BadNodeMagic,
    UnorderedInsert,
    ChunkNotFound(S),
    BadManifest,
    CorruptWal,
    BadHash(S),
}

impl DeepView for StoreError {
    type V = StoreError<Seq<char>>;

    open spec fn deep_view(&self) -> StoreError<Seq<char>> {
        match *self {
            StoreError::BadNodeMagic => StoreError::BadNodeMagic,
            StoreError::UnorderedInsert => StoreError::UnorderedInsert,
            StoreError::ChunkNotFound(a) => StoreError::ChunkNotFound(a@),
            StoreError::BadManifest => StoreError::BadManifest,
            StoreError::CorruptWal => StoreError::CorruptWal,
            StoreError::BadHash(a) => StoreError::BadHash(a@),
        }
    }
}

/// The message of each error.
pub open spec fn store_message(e: StoreError<Seq<char>>) -> Seq<char> {
    match e {
        StoreError::BadNodeMagic => "bad node magic: expected PNOD"@,
        StoreError::UnorderedInsert => "unordered insert into prolly builder"@,
        StoreError::ChunkNotFound(a) => "chunk not found: "@ + a,
        StoreError::BadManifest => "bad file manifest"@,
        StoreError::CorruptWal => "corrupt WAL record"@,
        StoreError::BadHash(a) => "bad hash string: "@ + a,
    }
}

impl StoreError {
    /// The user-facing message.
    pub fn to_string(&self) -> (r: String)
        ensures
            r@ == store_message(self.deep_view()),
    {
        match self {
            StoreError::BadNodeMagic => "bad node magic: expected PNOD".to_owned(),
            StoreError::UnorderedInsert => "unordered insert into prolly builder".to_owned(),
            StoreError::ChunkNotFound(a) => cat2("chunk not found: ", a.as_str()),
            StoreError::BadManifest => "bad file manifest".to_owned(),
            StoreError::CorruptWal => "corrupt WAL record".to_owned(),
            StoreError::BadHash(a) => cat2("bad hash string: ", a.as_str()),
        }
    }
}

/// What an outcome stands for.
pub open spec fn outcome<T: DeepView, E: DeepView>(r: Result<T, E>) -> Result<T::V, E::V> {
    match r {
        Ok(x) => Ok(x.deep_view()),
        Err(e) => Err(e.deep_view()),
    }
}

/// The encoded size of a manifest.
pub const MANIFEST_SIZE: usize = 168;

/// The root record of a database file.
#[derive(Debug, Clone)]
pub struct Manifest {
    pub root: ChunkHash,
    pub meta: ChunkHash,
    pub commits: u32,
    pub working: u32,
}

/// The first 54 bytes of a manifest: magic, version, root, meta and the two
/// counters, all numbers most significant byte first.
pub open spec fn manifest_head(m: Manifest) -> Seq<u8> {
    crate::octets::be_bytes(0x444C5443, 4) + crate::octets::be_bytes(12, 2) + m.root@ + m.meta@
        + crate::octets::be_bytes(m.commits as nat, 4) + crate::octets::be_bytes(
        m.working as nat,
        4,
    )
}

/// The whole encoding: the head, padded with zeros.
pub open spec fn manifest_bytes(m: Manifest) -> Seq<u8> {
    manifest_head(m) + Seq::new(114, |i: int| 0u8)
}

proof fn lemma_manifest_head_len(m: Manifest)
    ensures
        manifest_head(m).len() == 54,
        manifest_bytes(m).len() == 168,
{
    crate::octets::lemma_be_bytes_len(0x444C5443, 4);
    crate::octets::lemma_be_bytes_len(12, 2);
    crate::octets::lemma_be_bytes_len(m.commits as nat, 4);
    crate::octets::lemma_be_bytes_len(m.working as nat, 4);
}

/// Two manifests with the same encoding hold the same values.
pub proof fn law_manifest_injective(a: Manifest, b: Manifest)
    requires
        manifest_bytes(a) == manifest_bytes(b),
    ensures
        a == b,
{
    lemma_manifest_head_len(a);
    lemma_manifest_head_len(b);
    lemma_manifest_fields(a);
    lemma_manifest_fields(b);
    assert(a.root.0 =~= b.root.0);
    assert(a.meta.0 =~= b.meta.0);
}

proof fn lemma_manifest_fields(m: Manifest)
    ensures
        ({
            let s = manifest_bytes(m);
            &&& crate::octets::be_value(s.subrange(0, 4)) == 0x444C5443
            &&& crate::octets::be_value(s.subrange(4, 6)) == 12
            &&& s.subrange(6, 26) == m.root@
            &&& s.subrange(26, 46) == m.meta@
            &&& crate::octets::be_value(s.subrange(46, 50)) == m.commits
            &&& crate::octets::be_value(s.subrange(50, 54)) == m.working
            &&& forall|i: int| 54 <= i < 168 ==> s[i] == 0
        }),
{
    let s = manifest_bytes(m);
    lemma_manifest_head_len(m);
    crate::octets::lemma_radix();
    crate::octets::lemma_be_roundtrip(0x444C5443, 4);
    crate::octets::lemma_be_roundtrip(12, 2);
    crate::octets::lemma_be_roundtrip(m.commits as nat, 4);
    crate::octets::lemma_be_roundtrip(m.working as nat, 4);
    assert(s.subrange(0, 4) =~= crate::octets::be_bytes(0x444C5443, 4));
    assert(s.subrange(4, 6) =~= crate::octets::be_bytes(12, 2));
    assert(s.subrange(6, 26) =~= m.root@);
    assert(s.subrange(26, 46) =~= m.meta@);
    assert(s.subrange(46, 50) =~= crate::octets::be_bytes(m.commits as nat, 4));
    assert(s.subrange(50, 54) =~= crate::octets::be_bytes(m.working as nat, 4));
}

impl Manifest {
    /// The fixed-size encoding.
    pub fn encode(&self) -> (r: [u8; 168])
        ensures
            r@ == manifest_bytes(*self),
    {
        let mut head: Vec<u8> = Vec::new();
        push_be32(&mut head, FileMagic::DLTC);
        push_be16(&mut head, FileMagic::FORMAT_VERSION);
        push_all(&mut head, vstd::array::array_as_slice(&self.root.0));
        push_all(&mut head, vstd::array::array_as_slice(&self.meta.0));
        push_be32(&mut head, self.commits);
        push_be32(&mut head, self.working);
        proof {
            lemma_manifest_head_len(*self);
            assert(head@ =~= manifest_head(*self));
        }
        let mut buf: [u8; 168] = [0u8; 168];
        let mut i: usize = 0;
        while i < 54
            invariant
                i <= 54,
                head@.len() == 54,
                forall|j: int| 0 <= j < i ==> buf@[j] == head@[j],
                forall|j: int| i <= j < 168 ==> buf@[j] == 0,
            decreases 54 - i,
        {
            buf[i] = head[i];
            i = i + 1;
        }
        assert(buf@ =~= manifest_bytes(*self));
        buf
    }

    /// Read an encoding back. Every other content of the buffer is refused.
    pub fn decode(buf: &[u8; 168]) -> (r: Result<Manifest, StoreError>)
        ensures
            r matches Ok(m) ==> buf@ == manifest_bytes(m),
            r is Err <==> forall|m: Manifest| buf@ != #[trigger] manifest_bytes(m),
            r matches Err(e) ==> e.deep_view() == StoreError::<Seq<char>>::BadManifest,
    {
        let data = vstd::array::array_as_slice(buf);
        assert(data@ == buf@);
        let magic: u32 = read_be32(data, 0);
        if magic != FileMagic::DLTC {
            proof {
                assert forall|m: Manifest| buf@ != #[trigger] manifest_bytes(m) by {
                    lemma_manifest_fields(m);
                }
            }
            return Err(StoreError::BadManifest);
        }
        let version: u16 = read_be16(data, 4);
        if version != FileMagic::FORMAT_VERSION {
            proof {
                assert forall|m: Manifest| buf@ != #[trigger] manifest_bytes(m) by {
                    lemma_manifest_fields(m);
                }
            }
            return Err(StoreError::BadManifest);
        }
        let m = Manifest {
            root: ChunkHash(array20(data, 6)),
            meta: ChunkHash(array20(data, 26)),
            commits: read_be32(data, 46),
            working: read_be32(data, 50),
        };
        let mut i: usize = 54;
        while i < 168
            invariant
                54 <= i <= 168,
                data@.len() == 168,
                data@ == buf@,
                forall|j: int| 54 <= j < i ==> data@[j] == 0,
            decreases 168 - i,
        {
            if data[i] != 0 {
                proof {
                    assert forall|m: Manifest| buf@ != #[trigger] manifest_bytes(m) by {
                        lemma_manifest_fields(m);
                    }
                }
                return Err(StoreError::BadManifest);
            }
            i = i + 1;
        }
        proof {
            crate::octets::lemma_be_canonical(buf@.subrange(0, 4));
            crate::octets::lemma_be_canonical(buf@.subrange(4, 6));
            crate::octets::lemma_be_canonical(buf@.subrange(46, 50));
            crate::octets::lemma_be_canonical(buf@.subrange(50, 54));
            lemma_manifest_head_len(m);
            assert(buf@ =~= buf@.subrange(0, 4) + buf@.subrange(4, 6) + buf@.subrange(6, 26)
                + buf@.subrange(26, 46) + buf@.subrange(46, 50) + buf@.subrange(50, 54) + Seq::new(
                114,
                |i: int| 0u8,
            ));
        }
        Ok(m)
    }
}

} // verus!
