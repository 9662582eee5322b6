//! Arguments and values of the scalar functions.

use vstd::prelude::*;

use crate::model::{VersionError, VersionResult};
use crate::table_merge::Fault;
use crate::text::{cut_once, join, read_unsigned, str_eq, trim};
use crate::values::{CellModel, VcValue};

verus! {

broadcast use crate::text::lemma_bytes_deep_view;

/// An argument as SQL gives it. A real number is kept as its bits.
#[derive(Debug, Clone, Copy, PartialEq, Eq)]
pub enum FuncArg<'a> {
    Text(&'a str),
    Integer(i64),
    Real(u64),
    Blob(&'a [u8]),
    Null,
}

impl<'a> DeepView for FuncArg<'a> {
    type V = CellModel;

    open spec fn deep_view(&self) -> CellModel {
        match *self {
            FuncArg::Text(s) => VcValue::Text(s@),
            FuncArg::Integer(i) => VcValue::Integer(i),
            FuncArg::Real(b) => VcValue::Real(b),
            FuncArg::Blob(b) => VcValue::Blob(b@),
            FuncArg::Null => VcValue::Null,
        }
    }
}

/// The value of a scalar function, over the type of a text.
#[derive(Debug, Clone, PartialEq, Eq)]
pub enum FuncValue<S = String> {
    Text(S),
    Integer(i64),
    Null,
}

/// What a value stands for.
pub type ValueModel = FuncValue<Seq<char>>;

impl DeepView for FuncValue {
    type V = ValueModel;

    open spec fn deep_view(&self) -> ValueModel {
        match *self {
            FuncValue::Text(s) => FuncValue::Text(s@),
            FuncValue::Integer(i) => FuncValue::Integer(i),
            FuncValue::Null => FuncValue::Null,
        }
    }
}

/// What arguments stand for.
pub type ArgsModel = Seq<CellModel>;

/// What arguments stand for.
pub open spec fn args_of(args: Seq<FuncArg>) -> ArgsModel {
    args.map_values(|a: FuncArg| a.deep_view())
}

/// A function got the wrong arguments.
pub open spec fn wrong_args<A>(name: Seq<char>) -> Result<A, Fault> {
    Err(VersionError::IncorrectArity(name))
}

/// The text of an argument.
pub open spec fn text_of(a: CellModel) -> Option<Seq<char>> {
    match a {
        VcValue::Text(t) => Some(t),
        _ => None,
    }
}

/// Does an argument hold this text?
pub open spec fn says(a: CellModel, t: Seq<char>) -> bool {
    text_of(a) == Some(t)
}

/// The text of an argument; anything else counts as a wrong argument.
pub fn text<'a>(name: &str, arg: &FuncArg<'a>) -> (r: VersionResult<&'a str>)
    ensures
        match text_of(arg.deep_view()) {
            Some(t) => r matches Ok(x) && x@ == t,
            None => r matches Err(e) && e.deep_view() == Fault::IncorrectArity(name@),
        },
{
    match arg {
        FuncArg::Text(s) => Ok(*s),
        _ => Err(VersionError::IncorrectArity(name.to_owned())),
    }
}

/// Does an argument hold this text?
pub fn arg_says(arg: &FuncArg, t: &str) -> (r: bool)
    ensures
        r == says(arg.deep_view(), t@),
{
    match arg {
        FuncArg::Text(s) => str_eq(*s, t),
        _ => false,
    }
}

/// An argument as a cell. A null stays a cell of its own.
pub fn arg_to_value(arg: &FuncArg) -> (r: VcValue)
    ensures
        r.deep_view() == arg.deep_view(),
{
    match arg {
        FuncArg::Text(s) => VcValue::Text((*s).to_owned()),
        FuncArg::Integer(i) => VcValue::Integer(*i),
        FuncArg::Real(b) => VcValue::Real(*b),
        FuncArg::Blob(b) => {
            let mut bytes: Vec<u8> = Vec::new();
            crate::octets::push_all(&mut bytes, *b);
            assert(bytes@ =~= b@);
            VcValue::Blob(bytes)
        },
        FuncArg::Null => VcValue::Null,
    }
}

// ---------------------------------------------------------------------------
// Authors
// ---------------------------------------------------------------------------

/// The name and the address in `Name <address>`.
pub open spec fn author_in(raw: Seq<char>) -> Option<(Seq<char>, Seq<char>)> {
    match crate::text::split_once(raw, seq!['<']) {
        None => None,
        Some((name, rest)) => match crate::text::split_once(rest, seq!['>']) {
            None => None,
            Some((email, _)) => {
                let n = crate::text::trimmed(name);
                let e = crate::text::trimmed(email);
                if n.len() == 0 || e.len() == 0 {
                    None
                } else {
                    Some((n, e))
                }
            },
        },
    }
}

/// Read `Name <address>`.
pub fn parse_author(raw: &str) -> (r: VersionResult<(String, String)>)
    ensures
        match author_in(raw@) {
            Some((n, e)) => r matches Ok(x) && x.0@ == n && x.1@ == e,
            None => r matches Err(e) && e is InvalidAuthor,
        },
{
    let mut open: Vec<char> = Vec::new();
    open.push('<');
    assert(open@ =~= seq!['<']);
    let mut close: Vec<char> = Vec::new();
    close.push('>');
    assert(close@ =~= seq!['>']);
    match cut_once(raw, &open) {
        None => Err(VersionError::InvalidAuthor),
        Some((name, rest)) => match cut_once(rest.as_str(), &close) {
            None => Err(VersionError::InvalidAuthor),
            Some((email, _)) => {
                let n = trim(name.as_str());
                let e = trim(email.as_str());
                if n.as_str().is_empty() || e.as_str().is_empty() {
                    return Err(VersionError::InvalidAuthor);
                }
                Ok((n, e))
            },
        },
    }
}

// ---------------------------------------------------------------------------
// Commit
// ---------------------------------------------------------------------------

/// What the arguments of a commit say so far.
pub struct CommitWords {
    pub words: Seq<Seq<char>>,
    pub all: bool,
    pub author: Option<(Seq<char>, Seq<char>)>,
    pub force: bool,
}

/// Does a word start with a dash?
pub open spec fn is_flag(t: Seq<char>) -> bool {
    t.len() > 0 && t[0] == '-'
}

/// Read the arguments of a commit from place `i` on. Flags may stand anywhere; an
/// author flag takes the argument behind it.
pub open spec fn commit_words(a: ArgsModel, i: int, w: CommitWords) -> Result<CommitWords, Fault>
    decreases a.len() - i,
{
    if i >= a.len() {
        Ok(w)
    } else {
        match text_of(a[i]) {
            None => wrong_args("dolt_commit"@),
            Some(t) => if t == "-A"@ || t == "--all"@ || t == "-am"@ {
                commit_words(a, i + 1, CommitWords { all: true, ..w })
            } else if t == "-m"@ || t == "--message"@ {
                commit_words(a, i + 1, w)
            } else if t == "--author"@ {
                if i + 1 >= a.len() || text_of(a[i + 1]) is None {
                    wrong_args("dolt_commit"@)
                } else {
                    match author_in(text_of(a[i + 1])->0) {
                        None => Err(VersionError::InvalidAuthor),
                        Some(x) => commit_words(a, i + 2, CommitWords { author: Some(x), ..w }),
                    }
                }
            } else if t == "--force"@ {
                commit_words(a, i + 1, CommitWords { force: true, ..w })
            } else if is_flag(t) {
                wrong_args("dolt_commit"@)
            } else {
                commit_words(a, i + 1, CommitWords { words: w.words.push(t), ..w })
            },
        }
    }
}

/// The arguments of a commit; there has to be a message.
pub open spec fn commit_args(a: ArgsModel) -> Result<CommitWords, Fault> {
    match commit_words(
        a,
        0,
        CommitWords { words: seq![], all: false, author: None, force: false },
    ) {
        Err(e) => Err(e),
        Ok(w) => if w.words.len() == 0 {
            wrong_args("dolt_commit"@)
        } else {
            Ok(w)
        },
    }
}

/// The arguments of a commit.
pub struct CommitArgs {
    pub message: String,
    pub all: bool,
    pub author: Option<(String, String)>,
    pub force: bool,
}

/// Does a text start with a dash?
fn starts_with_dash(t: &str) -> (r: bool)
    ensures
        r == is_flag(t@),
{
    let v = crate::text::chars_of(t);
    v.len() > 0 && v[0] == '-'
}

/// Read the arguments of a commit. Flags may stand anywhere; the other arguments
/// make up the message.
pub fn parse_commit_args(args: &[FuncArg]) -> (r: VersionResult<CommitArgs>)
    ensures
        match commit_args(args_of(args@)) {
            Ok(w) => r matches Ok(c) && c.message@ == crate::text::joined(w.words, " "@) && c.all
                == w.all && c.author.deep_view() == w.author && c.force == w.force,
            Err(e) => r matches Err(x) && x.deep_view() == e,
        },
{
    let ghost a = args_of(args@);
    let ghost first = CommitWords { words: seq![], all: false, author: None, force: false };
    let mut words: Vec<String> = Vec::new();
    let mut all = false;
    let mut author: Option<(String, String)> = None;
    let mut force = false;
    let mut i: usize = 0;
    assert(words.deep_view() =~= seq![]);
    while i < args.len()
        invariant
            i <= args@.len(),
            a == args_of(args@),
            first == (CommitWords { words: seq![], all: false, author: None, force: false }),
            commit_words(
                a,
                i as int,
                CommitWords { words: words.deep_view(), all, author: author.deep_view(), force },
            ) == commit_words(a, 0, first),
        decreases args.len() - i,
    {
        let ghost before = words.deep_view();
        assert(a[i as int] == args@[i as int].deep_view());
        let t = match text("dolt_commit", &args[i]) {
            Ok(t) => t,
            Err(e) => {
                return Err(e);
            },
        };
        if str_eq(t, "-A") || str_eq(t, "--all") || str_eq(t, "-am") {
            all = true;
        } else if str_eq(t, "-m") || str_eq(t, "--message") {
        } else if str_eq(t, "--author") {
            if args.len() - i < 2 {
                return Err(VersionError::IncorrectArity("dolt_commit".to_owned()));
            }
            assert(a[i + 1] == args@[i + 1].deep_view());
            let raw = match text("dolt_commit", &args[i + 1]) {
                Ok(t) => t,
                Err(e) => {
                    return Err(e);
                },
            };
            author = match parse_author(raw) {
                Ok(x) => Some(x),
                Err(e) => {
                    return Err(e);
                },
            };
            i = i + 1;
        } else if str_eq(t, "--force") {
            force = true;
        } else if starts_with_dash(t) {
            return Err(VersionError::IncorrectArity("dolt_commit".to_owned()));
        } else {
            words.push(t.to_owned());
            assert(words.deep_view() =~= before.push(t@));
        }
        i = i + 1;
    }
    assert(words.deep_view().len() == words@.len());
    if words.len() == 0 {
        return Err(VersionError::IncorrectArity("dolt_commit".to_owned()));
    }
    Ok(CommitArgs { message: join(&words, " "), all, author, force })
}

// ---------------------------------------------------------------------------
// Parents
// ---------------------------------------------------------------------------

/// The parent that a number counted from one names.
pub open spec fn parent_in(t: Seq<char>) -> Option<usize> {
    match crate::text::parse_unsigned(t, usize::MAX as nat) {
        None => None,
        Some(n) => if n < 1 {
            None
        } else {
            Some((n - 1) as usize)
        },
    }
}

/// The parent that a number counted from one names.
pub fn parse_parent(t: &str) -> (r: Option<usize>)
    ensures
        r == parent_in(t@),
{
    match read_unsigned(t, usize::MAX as u64) {
        None => None,
        Some(n) => if n < 1 {
            None
        } else {
            Some((n - 1) as usize)
        },
    }
}

/// The arguments of a replay: a revision and perhaps `-m` with a parent.
pub open spec fn replay_args(name: Seq<char>, a: ArgsModel) -> Result<
    (Seq<char>, Option<usize>),
    Fault,
> {
    if a.len() == 1 && a[0] is Text {
        Ok((a[0]->Text_0, None))
    } else if a.len() == 3 && a[0] is Text && says(a[1], "-m"@) && a[2] is Text && parent_in(
        a[2]->Text_0,
    ) is Some {
        Ok((a[0]->Text_0, parent_in(a[2]->Text_0)))
    } else {
        wrong_args(name)
    }
}

/// Read the arguments of a replay.
pub fn parse_replay_args<'a>(name: &str, args: &[FuncArg<'a>]) -> (r: VersionResult<
    (&'a str, Option<usize>),
>)
    ensures
        match replay_args(name@, args_of(args@)) {
            Ok((t, p)) => r matches Ok(x) && x.0@ == t && x.1 == p,
            Err(e) => r matches Err(x) && x.deep_view() == e,
        },
{
    let ghost a = args_of(args@);
    if args.len() == 1 {
        assert(a[0] == args@[0].deep_view());
        return match text(name, &args[0]) {
            Ok(t) => Ok((t, None)),
            Err(e) => Err(e),
        };
    }
    if args.len() == 3 {
        assert(a[0] == args@[0].deep_view());
        assert(a[1] == args@[1].deep_view());
        assert(a[2] == args@[2].deep_view());
        if arg_says(&args[1], "-m") {
            let n = match text(name, &args[2]) {
                Ok(t) => t,
                Err(e) => {
                    return Err(e);
                },
            };
            let parent = match parse_parent(n) {
                Some(p) => p,
                None => {
                    return Err(VersionError::IncorrectArity(name.to_owned()));
                },
            };
            return match text(name, &args[0]) {
                Ok(t) => Ok((t, Some(parent))),
                Err(e) => Err(e),
            };
        }
    }
    Err(VersionError::IncorrectArity(name.to_owned()))
}

// ---------------------------------------------------------------------------
// Remotes
// ---------------------------------------------------------------------------

/// The arguments of a push: a remote, a branch and perhaps `--force`.
pub open spec fn push_args(a: ArgsModel) -> Result<(Seq<char>, Seq<char>, bool), Fault> {
    if a.len() != 2 && a.len() != 3 {
        Err(VersionError::RemoteAndBranchRequired)
    } else if a.len() == 3 && a[2] is Text && a[2]->Text_0 != "--force"@ {
        Err(VersionError::UnknownOption(a[2]->Text_0))
    } else if (a.len() == 3 && !(a[2] is Text)) || !(a[0] is Text) || !(a[1] is Text) {
        wrong_args("dolt_push"@)
    } else if a[0]->Text_0.len() == 0 || a[1]->Text_0.len() == 0 {
        Err(VersionError::RemoteAndBranchRequired)
    } else {
        Ok((a[0]->Text_0, a[1]->Text_0, a.len() == 3))
    }
}

/// Read the arguments of a push.
pub fn parse_push_args<'a>(args: &[FuncArg<'a>]) -> (r: VersionResult<(&'a str, &'a str, bool)>)
    ensures
        match push_args(args_of(args@)) {
            Ok((x, y, f)) => r matches Ok(v) && v.0@ == x && v.1@ == y && v.2 == f,
            Err(e) => r matches Err(x) && x.deep_view() == e,
        },
{
    let ghost a = args_of(args@);
    let n = args.len();
    if n != 2 && n != 3 {
        return Err(VersionError::RemoteAndBranchRequired);
    }
    assert(a[0] == args@[0].deep_view());
    assert(a[1] == args@[1].deep_view());
    if n == 3 {
        assert(a[2] == args@[2].deep_view());
        let flag = match text("dolt_push", &args[2]) {
            Ok(t) => t,
            Err(e) => {
                return Err(e);
            },
        };
        if !str_eq(flag, "--force") {
            return Err(VersionError::UnknownOption(flag.to_owned()));
        }
    }
    let remote = match text("dolt_push", &args[0]) {
        Ok(t) => t,
        Err(e) => {
            return Err(e);
        },
    };
    let branch = match text("dolt_push", &args[1]) {
        Ok(t) => t,
        Err(e) => {
            return Err(e);
        },
    };
    if remote.is_empty() || branch.is_empty() {
        return Err(VersionError::RemoteAndBranchRequired);
    }
    Ok((remote, branch, n == 3))
}

/// The arguments of a fetch: a remote and perhaps a branch.
pub open spec fn fetch_args(a: ArgsModel) -> Result<(Seq<char>, Option<Seq<char>>), Fault> {
    if a.len() == 0 {
        Err(VersionError::RemoteNameRequired)
    } else if a.len() > 2 {
        Err(VersionError::UsageDoltFetch)
    } else if !(a[0] is Text) || (a.len() == 2 && !(a[1] is Text)) {
        wrong_args("dolt_fetch"@)
    } else if a[0]->Text_0.len() == 0 {
        Err(VersionError::RemoteNameRequired)
    } else if a.len() == 2 && a[1]->Text_0.len() == 0 {
        Err(VersionError::BranchNameRequired)
    } else if a.len() == 2 {
        Ok((a[0]->Text_0, Some(a[1]->Text_0)))
    } else {
        Ok((a[0]->Text_0, None))
    }
}

/// Read the arguments of a fetch.
pub fn parse_fetch_args<'a>(args: &[FuncArg<'a>]) -> (r: VersionResult<(&'a str, Option<&'a str>)>)
    ensures
        match fetch_args(args_of(args@)) {
            Ok((x, y)) => r matches Ok(v) && v.0@ == x && (match v.1 {
                Some(b) => y == Some(b@),
                None => y is None,
            }),
            Err(e) => r matches Err(x) && x.deep_view() == e,
        },
{
    let ghost a = args_of(args@);
    if args.len() == 0 {
        return Err(VersionError::RemoteNameRequired);
    }
    if args.len() > 2 {
        return Err(VersionError::UsageDoltFetch);
    }
    assert(a[0] == args@[0].deep_view());
    let remote = match text("dolt_fetch", &args[0]) {
        Ok(t) => t,
        Err(e) => {
            return Err(e);
        },
    };
    let mut branch: Option<&'a str> = None;
    if args.len() == 2 {
        assert(a[1] == args@[1].deep_view());
        branch = match text("dolt_fetch", &args[1]) {
            Ok(t) => Some(t),
            Err(e) => {
                return Err(e);
            },
        };
    }
    if remote.is_empty() {
        return Err(VersionError::RemoteNameRequired);
    }
    match branch {
        Some(b) => {
            if b.is_empty() {
                return Err(VersionError::BranchNameRequired);
            }
        },
        None => {},
    }
    Ok((remote, branch))
}

/// The arguments of a pull: a remote and a branch.
pub open spec fn pull_args(a: ArgsModel) -> Result<(Seq<char>, Seq<char>), Fault> {
    if a.len() != 2 {
        Err(VersionError::UsageDoltPull)
    } else if !(a[0] is Text) || !(a[1] is Text) {
        wrong_args("dolt_pull"@)
    } else if a[0]->Text_0.len() == 0 || a[1]->Text_0.len() == 0 {
        Err(VersionError::UsageDoltPull)
    } else {
        Ok((a[0]->Text_0, a[1]->Text_0))
    }
}

/// Read the arguments of a pull.
pub fn parse_pull_args<'a>(args: &[FuncArg<'a>]) -> (r: VersionResult<(&'a str, &'a str)>)
    ensures
        match pull_args(args_of(args@)) {
            Ok((x, y)) => r matches Ok(v) && v.0@ == x && v.1@ == y,
            Err(e) => r matches Err(x) && x.deep_view() == e,
        },
{
    let ghost a = args_of(args@);
    if args.len() != 2 {
        return Err(VersionError::UsageDoltPull);
    }
    assert(a[0] == args@[0].deep_view());
    assert(a[1] == args@[1].deep_view());
    let remote = match text("dolt_pull", &args[0]) {
        Ok(t) => t,
        Err(e) => {
            return Err(e);
        },
    };
    let branch = match text("dolt_pull", &args[1]) {
        Ok(t) => t,
        Err(e) => {
            return Err(e);
        },
    };
    if remote.is_empty() || branch.is_empty() {
        return Err(VersionError::UsageDoltPull);
    }
    Ok((remote, branch))
}

/// The arguments of a clone: perhaps `--lazy`, and a URL.
pub open spec fn clone_args(a: ArgsModel) -> Result<(Seq<char>, bool), Fault> {
    if a.len() == 0 {
        Err(VersionError::UrlRequired)
    } else if a.len() > 2 {
        Err(VersionError::UsageDoltClone)
    } else if a.len() == 2 && a[0] is Text && a[0]->Text_0 != "--lazy"@ {
        Err(VersionError::UsageDoltClone)
    } else if !(a[0] is Text) || !(a.last() is Text) {
        wrong_args("dolt_clone"@)
    } else if a.last()->Text_0.len() == 0 {
        Err(VersionError::UrlRequired)
    } else {
        Ok((a.last()->Text_0, a.len() == 2))
    }
}

/// Read the arguments of a clone.
pub fn parse_clone_args<'a>(args: &[FuncArg<'a>]) -> (r: VersionResult<(&'a str, bool)>)
    ensures
        match clone_args(args_of(args@)) {
            Ok((x, l)) => r matches Ok(v) && v.0@ == x && v.1 == l,
            Err(e) => r matches Err(x) && x.deep_view() == e,
        },
{
    let ghost a = args_of(args@);
    let n = args.len();
    if n == 0 {
        return Err(VersionError::UrlRequired);
    }
    if n > 2 {
        return Err(VersionError::UsageDoltClone);
    }
    assert(a[0] == args@[0].deep_view());
    assert(a.last() == args@[n - 1].deep_view());
    if n == 2 {
        let flag = match text("dolt_clone", &args[0]) {
            Ok(t) => t,
            Err(e) => {
                return Err(e);
            },
        };
        if !str_eq(flag, "--lazy") {
            return Err(VersionError::UsageDoltClone);
        }
    }
    let url = match text("dolt_clone", &args[n - 1]) {
        Ok(t) => t,
        Err(e) => {
            return Err(e);
        },
    };
    if url.is_empty() {
        return Err(VersionError::UrlRequired);
    }
    Ok((url, n == 2))
}

// ---------------------------------------------------------------------------
// Laws
// ---------------------------------------------------------------------------

/// Is one of the arguments from a place on one of these texts?
pub open spec fn one_says(a: ArgsModel, from: int, texts: Seq<Seq<char>>) -> bool {
    exists|i: int|
        from <= i < a.len() && a[i] is Text && texts.contains((#[trigger] a[i])->Text_0)
}

/// The flags that a commit takes without an argument behind them.
pub open spec fn all_flags() -> Seq<Seq<char>> {
    seq!["-A"@, "--all"@, "-am"@]
}

/// The texts of arguments from a place on that are no flags.
pub open spec fn plain_texts(a: ArgsModel, from: int) -> Seq<Seq<char>>
    decreases a.len() - from,
{
    if from >= a.len() {
        seq![]
    } else if a[from] is Text && !(a[from]->Text_0.len() > 0 && a[from]->Text_0[0] == '-') {
        seq![a[from]->Text_0] + plain_texts(a, from + 1)
    } else {
        plain_texts(a, from + 1)
    }
}

/// A commit without an author reads its arguments wherever they stand: `-A`, `--all` or
/// `-am` asks for all changes, `--force` forces it, `-m` and `--message` say nothing by
/// themselves, and every other text that does not start with a dash is part of the message.
pub proof fn law_commit_arguments_read(a: ArgsModel)
    requires
        forall|i: int| 0 <= i < a.len() ==> (#[trigger] a[i]) is Text,
        !one_says(a, 0, seq!["--author"@]),
    ensures
        match commit_args(a) {
            Ok(w) => {
                &&& w.all == one_says(a, 0, all_flags())
                &&& w.force == one_says(a, 0, seq!["--force"@])
                &&& w.author is None
                &&& w.words == plain_texts(a, 0)
                &&& w.words.len() > 0
            },
            Err(_) => plain_texts(a, 0).len() == 0 || exists|i: int|
                0 <= i < a.len() && {
                    let t = (#[trigger] a[i])->Text_0;
                    &&& t.len() > 0 && t[0] == '-'
                    &&& !all_flags().contains(t) && t != "--force"@ && t != "-m"@ && t
                        != "--message"@
                },
        },
{
    let none = CommitWords { words: seq![], all: false, author: None, force: false };
    lemma_commit_words(a, 0, none);
    assert(none.words + plain_texts(a, 0) =~= plain_texts(a, 0));
}

proof fn lemma_one_says(a: ArgsModel, i: int, texts: Seq<Seq<char>>)
    requires
        0 <= i < a.len(),
        a[i] is Text,
    ensures
        one_says(a, i, texts) <==> texts.contains(a[i]->Text_0) || one_says(a, i + 1, texts),
{
    if one_says(a, i, texts) {
        let k = choose|k: int|
            i <= k < a.len() && a[k] is Text && texts.contains((#[trigger] a[k])->Text_0);
        if k > i {
            assert(a[k] is Text && texts.contains(a[k]->Text_0));
        }
    }
    if one_says(a, i + 1, texts) {
        let k = choose|k: int|
            i + 1 <= k < a.len() && a[k] is Text && texts.contains((#[trigger] a[k])->Text_0);
        assert(a[k] is Text && texts.contains(a[k]->Text_0));
    }
}

proof fn lemma_flag_words(t: Seq<char>)
    ensures
        all_flags().contains(t) <==> t == "-A"@ || t == "--all"@ || t == "-am"@,
        seq!["--author"@].contains(t) <==> t == "--author"@,
        seq!["--force"@].contains(t) <==> t == "--force"@,
        is_flag("-A"@) && is_flag("--all"@) && is_flag("-am"@) && is_flag("-m"@) && is_flag(
            "--message"@,
        ) && is_flag("--author"@) && is_flag("--force"@),
        "--force"@ != "-A"@ && "--force"@ != "--all"@ && "--force"@ != "-am"@ && "--force"@ != "-m"@
            && "--force"@ != "--message"@ && "--force"@ != "--author"@,
        "-m"@ != "-A"@ && "-m"@ != "--all"@ && "-m"@ != "-am"@,
        "--message"@ != "-A"@ && "--message"@ != "--all"@ && "--message"@ != "-am"@,
        "--author"@ != "-A"@ && "--author"@ != "--all"@ && "--author"@ != "-am"@ && "--author"@
            != "-m"@ && "--author"@ != "--message"@,
{
    reveal_strlit("-A");
    reveal_strlit("--all");
    reveal_strlit("-am");
    reveal_strlit("-m");
    reveal_strlit("--message");
    reveal_strlit("--author");
    reveal_strlit("--force");
    let f = all_flags();
    assert(f[0] == "-A"@ && f[1] == "--all"@ && f[2] == "-am"@);
    assert(seq!["--author"@][0] == "--author"@ && seq!["--force"@][0] == "--force"@);
    assert("-A"@.len() == 2 && "--all"@.len() == 5 && "-am"@.len() == 3 && "-m"@.len() == 2
        && "--message"@.len() == 9 && "--author"@.len() == 8 && "--force"@.len() == 7);
    assert("-A"@[1] == 'A' && "-m"@[1] == 'm');
}

proof fn lemma_commit_words(a: ArgsModel, i: int, w: CommitWords)
    requires
        0 <= i <= a.len(),
        forall|k: int| 0 <= k < a.len() ==> (#[trigger] a[k]) is Text,
        !one_says(a, i, seq!["--author"@]),
    ensures
        match commit_words(a, i, w) {
            Ok(x) => {
                &&& x.all == (w.all || one_says(a, i, all_flags()))
                &&& x.force == (w.force || one_says(a, i, seq!["--force"@]))
                &&& x.author == w.author
                &&& x.words == w.words + plain_texts(a, i)
            },
            Err(_) => exists|k: int|
                0 <= k < a.len() && {
                    let t = (#[trigger] a[k])->Text_0;
                    &&& t.len() > 0 && t[0] == '-'
                    &&& !all_flags().contains(t) && t != "--force"@ && t != "-m"@ && t
                        != "--message"@
                },
        },
    decreases a.len() - i,
{
    if i >= a.len() {
        assert(w.words + plain_texts(a, i) =~= w.words);
    } else {
        let t = a[i]->Text_0;
        assert(a[i] is Text);
        lemma_flag_words(t);
        lemma_one_says(a, i, seq!["--author"@]);
        lemma_one_says(a, i, all_flags());
        lemma_one_says(a, i, seq!["--force"@]);
        if all_flags().contains(t) {
            lemma_commit_words(a, i + 1, CommitWords { all: true, ..w });
        } else if t == "-m"@ || t == "--message"@ {
            lemma_commit_words(a, i + 1, w);
        } else if t == "--force"@ {
            lemma_commit_words(a, i + 1, CommitWords { force: true, ..w });
        } else if !is_flag(t) {
            let next = CommitWords { words: w.words.push(t), ..w };
            lemma_commit_words(a, i + 1, next);
            assert(next.words + plain_texts(a, i + 1) =~= w.words + plain_texts(a, i));
        }
    }
}

/// An author is the name before `<` and the address between `<` and `>`, each without the
/// white space around it, and neither may be empty.
pub proof fn law_author_reads(name: Seq<char>, email: Seq<char>, rest: Seq<char>)
    requires
        !name.contains('<'),
        !email.contains('>'),
    ensures
        author_in(name + seq!['<'] + email + seq!['>'] + rest) == if crate::text::trimmed(name).len()
            == 0 || crate::text::trimmed(email).len() == 0 {
            None
        } else {
            Some((crate::text::trimmed(name), crate::text::trimmed(email)))
        },
        author_in(name) is None,
{
    let raw = name + seq!['<'] + email + seq!['>'] + rest;
    let tail = email + seq!['>'] + rest;
    assert(raw =~= name + seq!['<'] + tail);
    lemma_split_at(name, '<', tail);
    lemma_split_at(email, '>', rest);
    crate::text::lemma_find_from(name, seq!['<'], 0);
    if let Some(i) = crate::text::find_from(name, seq!['<'], 0) {
        assert(name.subrange(i, i + 1)[0] == name[i]);
    }
}

/// A text splits at the first of a character.
proof fn lemma_split_at(left: Seq<char>, c: char, right: Seq<char>)
    requires
        !left.contains(c),
    ensures
        crate::text::split_once(left + seq![c] + right, seq![c]) == Some((left, right)),
{
    let s = left + seq![c] + right;
    let n = left.len() as int;
    lemma_found(left, c, right, 0);
    assert(s.take(n) =~= left);
    assert(s.skip(n + 1) =~= right);
}

proof fn lemma_found(left: Seq<char>, c: char, right: Seq<char>, i: int)
    requires
        !left.contains(c),
        0 <= i <= left.len(),
    ensures
        crate::text::find_from(left + seq![c] + right, seq![c], i) == Some(left.len() as int),
    decreases left.len() - i,
{
    let s = left + seq![c] + right;
    let part = s.subrange(i, i + 1);
    assert(part[0] == s[i]);
    if i < left.len() {
        assert(left.contains(left[i]));
        assert(seq![c][0] == c);
        lemma_found(left, c, right, i + 1);
    } else {
        assert(part =~= seq![c]);
    }
}

} // verus!
