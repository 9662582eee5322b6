//! The scalar functions of version control.

use vstd::prelude::*;

use crate::conflicts::ResolveSide;
use crate::creds::CredStore;
use crate::digest::{hex_of, sha256_of};
pub use crate::func_args::{FuncArg, FuncValue};
pub use crate::operations::VcOperations;
use crate::func_args::{
    arg_says, arg_to_value, parse_clone_args, parse_commit_args, parse_fetch_args, parse_pull_args,
    parse_push_args, parse_replay_args, text, ArgsModel, ValueModel,
};
use crate::model::{CommitId, VersionError, VersionResult};
use crate::names::sorted_keys;
use crate::octets::push_all;
use crate::remote_transport::RemoteTransport;
use crate::remote_wire::{encode_snapshot, snapshot_id};
use crate::replay::{MergeResult, RebaseStep, ResultModel};
use crate::replay_state::StepModel;
use crate::staging::{StatusModel, StatusRow, StoreModel, VcStore};
use crate::table_merge::{Fault, Tables, TablesModel};
use crate::text::{cat5, decimal_text, join, str_eq, words_of};
use crate::values::VcValue;

verus! {

broadcast use crate::text::lemma_bytes_deep_view;

/// A repository after a function, and the function's value.
pub type Scalar = (StoreModel, Result<ValueModel, Fault>);

/// Nothing to report.
pub open spec fn zero() -> Result<ValueModel, Fault> {
    Ok(FuncValue::Integer(0))
}

/// A repository after an operation that reports nothing.
pub open spec fn silent(r: (StoreModel, Result<(), Fault>)) -> Scalar {
    (
        r.0,
        match r.1 {
            Ok(_) => zero(),
            Err(e) => Err(e),
        },
    )
}

/// A repository after an operation that reports a name.
pub open spec fn naming(r: (StoreModel, Result<(), Fault>), name: Seq<char>) -> Scalar {
    (
        r.0,
        match r.1 {
            Ok(_) => Ok(FuncValue::Text(name)),
            Err(e) => Err(e),
        },
    )
}

/// A repository after an operation that reports a commit.
pub open spec fn with_hash(r: (StoreModel, Result<Seq<u8>, Fault>)) -> Scalar {
    (
        r.0,
        match r.1 {
            Ok(id) => Ok(FuncValue::Text(crate::digest::hex_text(id))),
            Err(e) => Err(e),
        },
    )
}

fn report_zero(r: VersionResult<()>) -> (v: VersionResult<FuncValue>)
    ensures
        crate::model::outcome(v) == (match crate::model::outcome(r) {
            Ok(_) => zero(),
            Err(e) => Err(e),
        }),
{
    match r {
        Ok(_) => Ok(FuncValue::Integer(0)),
        Err(e) => Err(e),
    }
}

fn report_name(r: VersionResult<()>, name: &str) -> (v: VersionResult<FuncValue>)
    ensures
        crate::model::outcome(v) == (match crate::model::outcome(r) {
            Ok(_) => Ok::<ValueModel, Fault>(FuncValue::Text(name@)),
            Err(e) => Err(e),
        }),
{
    match r {
        Ok(_) => Ok(FuncValue::Text(name.to_owned())),
        Err(e) => Err(e),
    }
}

fn report_hash(r: VersionResult<CommitId>) -> (v: VersionResult<FuncValue>)
    ensures
        crate::model::outcome(v) == (match crate::model::outcome(r) {
            Ok(id) => Ok::<ValueModel, Fault>(FuncValue::Text(crate::digest::hex_text(id))),
            Err(e) => Err(e),
        }),
{
    match r {
        Ok(id) => Ok(FuncValue::Text(id.to_hex())),
        Err(e) => Err(e),
    }
}

fn refuse(name: &str) -> (v: VersionResult<FuncValue>)
    ensures
        crate::model::outcome(v) == crate::func_args::wrong_args::<ValueModel>(name@),
{
    Err(VersionError::IncorrectArity(name.to_owned()))
}

// ---------------------------------------------------------------------------
// Staging and commits
// ---------------------------------------------------------------------------

/// Are all arguments texts?
pub open spec fn all_texts(a: ArgsModel) -> bool {
    forall|i: int| 0 <= i < a.len() ==> #[trigger] a[i] is Text
}

/// The texts of arguments.
pub open spec fn texts(a: ArgsModel) -> Seq<Seq<char>> {
    a.map_values(|v: crate::values::CellModel| v->Text_0)
}

/// Stage all changes; how many tables they are in.
pub open spec fn all_added(s: StoreModel) -> Scalar {
    match crate::staging::write_guard(s) {
        Some(e) => (s, Err(e)),
        None => (
            crate::staging::staged_with(s, s.unstaged),
            Ok(FuncValue::Integer((crate::names::ordered(s.unstaged).len() as usize) as i64)),
        ),
    }
}

/// `dolt_add`: stage the named tables, or all changes for `-A`.
pub open spec fn add_scalar(s: StoreModel, a: ArgsModel) -> Scalar {
    if a.len() == 0 || !all_texts(a) {
        (s, crate::func_args::wrong_args("dolt_add"@))
    } else if a.len() == 1 && a[0]->Text_0 == "-A"@ {
        all_added(s)
    } else {
        let (t, out) = crate::staging::add_tables(s, texts(a));
        (
            t,
            match out {
                Ok(_) => Ok(FuncValue::Integer((a.len() as usize) as i64)),
                Err(e) => Err(e),
            },
        )
    }
}

fn all_text<'a>(name: &str, args: &[FuncArg<'a>]) -> (r: VersionResult<Vec<&'a str>>)
    ensures
        ({
            let a = crate::func_args::args_of(args@);
            if all_texts(a) {
                r matches Ok(v) && crate::staging::strs(v@) == texts(a)
            } else {
                r matches Err(e) && e.deep_view() == Fault::IncorrectArity(name@)
            }
        }),
{
    let ghost a = crate::func_args::args_of(args@);
    let mut out: Vec<&'a str> = Vec::new();
    let mut i: usize = 0;
    while i < args.len()
        invariant
            i <= args@.len(),
            a == crate::func_args::args_of(args@),
            out@.len() == i,
            forall|j: int| 0 <= j < i ==> #[trigger] a[j] is Text && a[j]->Text_0 == out@[j]@,
        decreases args.len() - i,
    {
        assert(a[i as int] == args@[i as int].deep_view());
        match text(name, &args[i]) {
            Ok(t) => {
                out.push(t);
            },
            Err(e) => {
                assert(!(a[i as int] is Text));
                return Err(e);
            },
        }
        i = i + 1;
    }
    proof {
        assert forall|j: int| 0 <= j < a.len() implies #[trigger] a[j] is Text by {}
        assert(crate::staging::strs(out@) =~= texts(a));
    }
    Ok(out)
}

/// `dolt_add`: stage the named tables, or all changes for `-A`.
pub fn dolt_add<V: VcOperations>(vc: &mut V, args: &[FuncArg]) -> (r: VersionResult<FuncValue>)
    ensures
        add_scalar(old(vc).deep_view(), crate::func_args::args_of(args@)) == (
            final(vc).deep_view(),
            crate::model::outcome(r),
        ),
{
    let ghost a = crate::func_args::args_of(args@);
    if args.len() == 0 {
        return refuse("dolt_add");
    }
    let tables = match all_text("dolt_add", args) {
        Ok(t) => t,
        Err(e) => {
            return Err(e);
        },
    };
    assert(texts(a).len() == tables@.len());
    assert(texts(a)[0] == crate::staging::strs(tables@)[0]);
    if tables.len() == 1 && str_eq(tables[0], "-A") {
        return match vc.add_all() {
            Ok(n) => Ok(FuncValue::Integer(n as i64)),
            Err(e) => Err(e),
        };
    }
    match vc.add(tables.as_slice()) {
        Ok(n) => Ok(FuncValue::Integer(n as i64)),
        Err(e) => Err(e),
    }
}

/// `dolt_commit`: commit what is staged.
pub open spec fn commit_scalar(s: StoreModel, a: ArgsModel) -> Scalar {
    match crate::func_args::commit_args(a) {
        Err(e) => (s, Err(e)),
        Ok(w) => with_hash(
            crate::staging::committed(
                s,
                crate::text::joined(w.words, " "@),
                w.author,
                w.all,
                w.force,
            ),
        ),
    }
}

/// `dolt_commit`: commit what is staged.
pub fn dolt_commit<V: VcOperations>(vc: &mut V, args: &[FuncArg]) -> (r: VersionResult<FuncValue>)
    ensures
        commit_scalar(old(vc).deep_view(), crate::func_args::args_of(args@)) == (
            final(vc).deep_view(),
            crate::model::outcome(r),
        ),
{
    let c = match parse_commit_args(args) {
        Ok(c) => c,
        Err(e) => {
            return Err(e);
        },
    };
    match &c.author {
        Some((name, email)) => report_hash(
            vc.commit(
                c.message.as_str(),
                Some((name.as_str(), email.as_str())),
                c.all,
                c.force,
            ),
        ),
        None => report_hash(vc.commit(c.message.as_str(), None, c.all, c.force)),
    }
}

/// `dolt_status`: one line for each entry.
pub open spec fn status_line(row: StatusModel) -> Seq<char> {
    row.table + "|"@ + (if row.staged {
        "1"@
    } else {
        "0"@
    }) + "|"@ + crate::staging::state_label(row.status)
}

/// The text of a status.
pub open spec fn status_text(s: StoreModel) -> Seq<char> {
    crate::text::joined(
        crate::staging::status_of(s).map_values(|r: StatusModel| status_line(r)),
        "\n"@,
    )
}

fn line_of(row: &StatusRow) -> (r: String)
    ensures
        r@ == status_line(row.deep_view()),
{
    let staged = if row.staged {
        "1"
    } else {
        "0"
    };
    cat5(row.table.as_str(), "|", staged, "|", row.status.label())
}

/// `dolt_status`: the changed tables, one on a line.
pub fn dolt_status<V: VcOperations>(vc: &V, args: &[FuncArg]) -> (r: VersionResult<FuncValue>)
    ensures
        crate::model::outcome(r) == (if args@.len() == 0 {
            Ok(FuncValue::Text(status_text(vc.deep_view())))
        } else {
            crate::func_args::wrong_args("dolt_status"@)
        }),
{
    if args.len() != 0 {
        return refuse("dolt_status");
    }
    let rows = vc.status();
    let ghost m = rows.deep_view();
    let mut lines: Vec<String> = Vec::new();
    let mut i: usize = 0;
    while i < rows.len()
        invariant
            i <= rows@.len(),
            m == rows.deep_view(),
            lines@.len() == i,
            forall|j: int| 0 <= j < i ==> (#[trigger] lines@[j])@ == status_line(m[j]),
        decreases rows.len() - i,
    {
        assert(m[i as int] == rows@[i as int].deep_view());
        lines.push(line_of(&rows[i]));
        i = i + 1;
    }
    assert(lines.deep_view() =~= m.map_values(|r: StatusModel| status_line(r)));
    Ok(FuncValue::Text(join(&lines, "\n")))
}

/// `dolt_reset`: unstage, or with `--hard` go back to the head.
pub open spec fn reset_scalar(s: StoreModel, a: ArgsModel) -> Scalar {
    if a.len() == 0 || (a.len() == 1 && crate::func_args::says(a[0], "--soft"@)) {
        silent(crate::staging::soft_reset(s))
    } else if a.len() == 1 && crate::func_args::says(a[0], "--hard"@) {
        silent(crate::staging::hard_reset(s))
    } else {
        (s, crate::func_args::wrong_args("dolt_reset"@))
    }
}

/// `dolt_reset`: unstage, or with `--hard` go back to the head.
pub fn dolt_reset<V: VcOperations>(vc: &mut V, args: &[FuncArg]) -> (r: VersionResult<FuncValue>)
    ensures
        reset_scalar(old(vc).deep_view(), crate::func_args::args_of(args@)) == (
            final(vc).deep_view(),
            crate::model::outcome(r),
        ),
{
    let ghost a = crate::func_args::args_of(args@);
    if args.len() == 0 {
        return report_zero(vc.reset_soft());
    }
    assert(a[0] == args@[0].deep_view());
    if args.len() == 1 && arg_says(&args[0], "--soft") {
        return report_zero(vc.reset_soft());
    }
    if args.len() == 1 && arg_says(&args[0], "--hard") {
        return report_zero(vc.reset_hard());
    }
    refuse("dolt_reset")
}

/// `dolt_clean`: forget tables that were never committed.
pub open spec fn clean_scalar(s: StoreModel, a: ArgsModel) -> Scalar {
    if a.len() != 0 {
        (s, crate::func_args::wrong_args("dolt_clean"@))
    } else {
        match crate::staging::write_guard(s) {
            Some(e) => (s, Err(e)),
            None => (crate::staging::cleaned(s), zero()),
        }
    }
}

/// `dolt_clean`: forget tables that were never committed.
pub fn dolt_clean<V: VcOperations>(vc: &mut V, args: &[FuncArg]) -> (r: VersionResult<FuncValue>)
    ensures
        clean_scalar(old(vc).deep_view(), crate::func_args::args_of(args@)) == (
            final(vc).deep_view(),
            crate::model::outcome(r),
        ),
{
    if args.len() != 0 {
        return refuse("dolt_clean");
    }
    match vc.clean() {
        Ok(_) => Ok(FuncValue::Integer(0)),
        Err(e) => Err(e),
    }
}

// ---------------------------------------------------------------------------
// Branches, tags and configuration
// ---------------------------------------------------------------------------

/// `dolt_branch`: list, create or delete branches.
pub open spec fn branch_scalar(s: StoreModel, a: ArgsModel) -> Scalar {
    if a.len() == 0 {
        (s, Ok(FuncValue::Text(crate::text::joined(crate::names::ordered(s.branches), "\n"@))))
    } else if a.len() == 1 && a[0] is Text {
        naming(crate::staging::branched(s, a[0]->Text_0), a[0]->Text_0)
    } else if a.len() == 2 && (crate::func_args::says(a[0], "-d"@) || crate::func_args::says(
        a[0],
        "-D"@,
    )) && a[1] is Text {
        naming(crate::staging::unbranched(s, a[1]->Text_0), a[1]->Text_0)
    } else {
        (s, crate::func_args::wrong_args("dolt_branch"@))
    }
}

/// `dolt_branch`: list, create or delete branches.
pub fn dolt_branch<V: VcOperations>(vc: &mut V, args: &[FuncArg]) -> (r: VersionResult<FuncValue>)
    ensures
        branch_scalar(old(vc).deep_view(), crate::func_args::args_of(args@)) == (
            final(vc).deep_view(),
            crate::model::outcome(r),
        ),
{
    let ghost a = crate::func_args::args_of(args@);
    if args.len() == 0 {
        return Ok(FuncValue::Text(join(&vc.list_branches(), "\n")));
    }
    assert(a[0] == args@[0].deep_view());
    if args.len() == 1 {
        return match text("dolt_branch", &args[0]) {
            Ok(name) => report_name(vc.create_branch(name), name),
            Err(e) => Err(e),
        };
    }
    if args.len() == 2 && (arg_says(&args[0], "-d") || arg_says(&args[0], "-D")) {
        assert(a[1] == args@[1].deep_view());
        return match text("dolt_branch", &args[1]) {
            Ok(name) => report_name(vc.delete_branch(name), name),
            Err(e) => Err(e),
        };
    }
    refuse("dolt_branch")
}

/// `dolt_checkout`: go to a branch.
pub open spec fn checkout_scalar(s: StoreModel, a: ArgsModel) -> Scalar {
    if a.len() == 1 && a[0] is Text {
        naming(crate::staging::checked_out(s, a[0]->Text_0), a[0]->Text_0)
    } else {
        (s, crate::func_args::wrong_args("dolt_checkout"@))
    }
}

/// `dolt_checkout`: go to a branch.
pub fn dolt_checkout<V: VcOperations>(vc: &mut V, args: &[FuncArg]) -> (r: VersionResult<FuncValue>)
    ensures
        checkout_scalar(old(vc).deep_view(), crate::func_args::args_of(args@)) == (
            final(vc).deep_view(),
            crate::model::outcome(r),
        ),
{
    let ghost a = crate::func_args::args_of(args@);
    if args.len() != 1 {
        return refuse("dolt_checkout");
    }
    assert(a[0] == args@[0].deep_view());
    match text("dolt_checkout", &args[0]) {
        Ok(name) => report_name(vc.checkout(name), name),
        Err(e) => Err(e),
    }
}

/// Set a tag at a revision.
pub open spec fn tagged_at(s: StoreModel, name: Seq<char>, rev: Seq<char>) -> Scalar {
    match crate::staging::named(s, rev) {
        Err(e) => (s, Err(e)),
        Ok(id) => naming(crate::staging::tagged(s, name, id), name),
    }
}

/// `dolt_tag`: set a tag at the head or at a revision, or delete one.
pub open spec fn tag_scalar(s: StoreModel, a: ArgsModel) -> Scalar {
    if a.len() == 1 && a[0] is Text {
        tagged_at(s, a[0]->Text_0, "HEAD"@)
    } else if a.len() == 2 && a[0] is Text && a[1] is Text {
        if a[0]->Text_0 == "-d"@ {
            naming(crate::staging::untagged(s, a[1]->Text_0), a[1]->Text_0)
        } else {
            tagged_at(s, a[0]->Text_0, a[1]->Text_0)
        }
    } else {
        (s, crate::func_args::wrong_args("dolt_tag"@))
    }
}

fn set_tag<V: VcOperations>(vc: &mut V, name: &str, rev: &str) -> (r: VersionResult<FuncValue>)
    ensures
        tagged_at(old(vc).deep_view(), name@, rev@) == (
            final(vc).deep_view(),
            crate::model::outcome(r),
        ),
{
    let at = match vc.resolve(rev) {
        Ok(id) => id,
        Err(e) => {
            return Err(e);
        },
    };
    report_name(vc.create_tag(name, at), name)
}

/// `dolt_tag`: set a tag at the head or at a revision, or delete one.
pub fn dolt_tag<V: VcOperations>(vc: &mut V, args: &[FuncArg]) -> (r: VersionResult<FuncValue>)
    ensures
        tag_scalar(old(vc).deep_view(), crate::func_args::args_of(args@)) == (
            final(vc).deep_view(),
            crate::model::outcome(r),
        ),
{
    let ghost a = crate::func_args::args_of(args@);
    if args.len() != 1 && args.len() != 2 {
        return refuse("dolt_tag");
    }
    assert(a[0] == args@[0].deep_view());
    let first = match text("dolt_tag", &args[0]) {
        Ok(t) => t,
        Err(e) => {
            return Err(e);
        },
    };
    if args.len() == 1 {
        return set_tag(vc, first, "HEAD");
    }
    assert(a[1] == args@[1].deep_view());
    let second = match text("dolt_tag", &args[1]) {
        Ok(t) => t,
        Err(e) => {
            return Err(e);
        },
    };
    if str_eq(first, "-d") {
        report_name(vc.delete_tag(second), second)
    } else {
        set_tag(vc, first, second)
    }
}

/// `dolt_active_branch`: the current branch; null while detached.
pub fn dolt_active_branch<V: VcOperations>(vc: &V, args: &[FuncArg]) -> (r: VersionResult<FuncValue>)
    ensures
        crate::model::outcome(r) == (if args@.len() != 0 {
            crate::func_args::wrong_args("dolt_active_branch"@)
        } else if vc.deep_view().detached is Some {
            Ok::<ValueModel, Fault>(FuncValue::Null)
        } else {
            Ok(FuncValue::Text(vc.deep_view().head))
        }),
{
    if args.len() != 0 {
        return refuse("dolt_active_branch");
    }
    match vc.active_branch() {
        Some(name) => Ok(FuncValue::Text(name.to_owned())),
        None => Ok(FuncValue::Null),
    }
}

/// `dolt_config`: read or set a configuration value.
pub open spec fn config_scalar(s: StoreModel, a: ArgsModel) -> Scalar {
    if a.len() == 1 && a[0] is Text {
        (
            s,
            match crate::merge::lookup(s.config, a[0]->Text_0) {
                Some(v) => Ok(FuncValue::Text(v)),
                None => Ok(FuncValue::Null),
            },
        )
    } else if a.len() == 2 && a[0] is Text && a[1] is Text {
        (
            StoreModel { config: s.config.insert(a[0]->Text_0, a[1]->Text_0), ..s },
            Ok(FuncValue::Text(a[1]->Text_0)),
        )
    } else {
        (s, crate::func_args::wrong_args("dolt_config"@))
    }
}

/// `dolt_config`: read or set a configuration value.
pub fn dolt_config<V: VcOperations>(vc: &mut V, args: &[FuncArg]) -> (r: VersionResult<FuncValue>)
    ensures
        config_scalar(old(vc).deep_view(), crate::func_args::args_of(args@)) == (
            final(vc).deep_view(),
            crate::model::outcome(r),
        ),
{
    let ghost a = crate::func_args::args_of(args@);
    if args.len() != 1 && args.len() != 2 {
        return refuse("dolt_config");
    }
    assert(a[0] == args@[0].deep_view());
    let key = match text("dolt_config", &args[0]) {
        Ok(t) => t,
        Err(e) => {
            return Err(e);
        },
    };
    if args.len() == 1 {
        return match vc.config_get(key) {
            Some(v) => Ok(FuncValue::Text(v)),
            None => Ok(FuncValue::Null),
        };
    }
    assert(a[1] == args@[1].deep_view());
    let value = match text("dolt_config", &args[1]) {
        Ok(t) => t,
        Err(e) => {
            return Err(e);
        },
    };
    vc.config_set(key, value);
    Ok(FuncValue::Text(value.to_owned()))
}

// ---------------------------------------------------------------------------
// Hashes
// ---------------------------------------------------------------------------

/// `dolt_hashof`: the commit that a revision names.
pub open spec fn hashof_scalar(s: StoreModel, a: ArgsModel) -> Result<ValueModel, Fault> {
    if a.len() == 1 && a[0] is Text {
        match crate::staging::named(s, a[0]->Text_0) {
            Ok(id) => Ok(FuncValue::Text(crate::digest::hex_text(id))),
            Err(e) => Err(e),
        }
    } else {
        crate::func_args::wrong_args("dolt_hashof"@)
    }
}

/// `dolt_hashof`: the commit that a revision names.
pub fn dolt_hashof<V: VcOperations>(vc: &V, args: &[FuncArg]) -> (r: VersionResult<FuncValue>)
    ensures
        crate::model::outcome(r) == hashof_scalar(
            vc.deep_view(),
            crate::func_args::args_of(args@),
        ),
{
    let ghost a = crate::func_args::args_of(args@);
    if args.len() != 1 {
        return refuse("dolt_hashof");
    }
    assert(a[0] == args@[0].deep_view());
    match text("dolt_hashof", &args[0]) {
        Ok(rev) => report_hash(vc.resolve(rev)),
        Err(e) => Err(e),
    }
}

/// The table of a name at a revision, or in the working set and else at the head.
pub open spec fn table_at(s: StoreModel, table: Seq<char>, rev: Option<Seq<char>>) -> Result<
    crate::staging::SnapModel,
    Fault,
> {
    match rev {
        Some(r) => match crate::staging::named(s, r) {
            Err(e) => Err(e),
            Ok(id) => {
                let tables = crate::remote_wire::tables_at(s.snapshots, id);
                if tables.dom().contains(table) {
                    Ok(tables[table])
                } else {
                    Err(VersionError::TableNotFound(table))
                }
            },
        },
        None => if s.work.dom().contains(table) {
            Ok(s.work[table])
        } else {
            let tables = crate::staging::head_tables(s);
            if tables.dom().contains(table) {
                Ok(tables[table])
            } else {
                Err(VersionError::TableNotFound(table))
            }
        },
    }
}

/// The hash of a table's contents.
pub open spec fn table_hash_of(s: StoreModel, table: Seq<char>, rev: Option<Seq<char>>) -> Result<
    Seq<char>,
    Fault,
> {
    match table_at(s, table, rev) {
        Err(e) => Err(e),
        Ok(snap) => Ok(
            crate::digest::hex_text(
                crate::chunk::chunk_address(crate::remote_wire::snapshot_bytes(snap)),
            ),
        ),
    }
}

/// The tables of a revision, or the working set.
pub open spec fn tables_for(s: StoreModel, rev: Option<Seq<char>>) -> Result<TablesModel, Fault> {
    match rev {
        Some(r) => match crate::staging::named(s, r) {
            Err(e) => Err(e),
            Ok(id) => Ok(crate::remote_wire::tables_at(s.snapshots, id)),
        },
        None => Ok(s.work),
    }
}

/// The bytes of tables by name: each name, a zero and the contents.
pub open spec fn db_bytes(tables: TablesModel, list: Seq<Seq<char>>) -> Seq<u8>
    decreases list.len(),
{
    if list.len() == 0 {
        seq![]
    } else {
        db_bytes(tables, list.drop_last()) + crate::text::utf8(list.last()) + seq![0u8]
            + crate::remote_wire::snapshot_bytes(tables[list.last()])
    }
}

/// The hash of a database: twenty bytes of the digest of its tables.
pub open spec fn db_hash_of(s: StoreModel, rev: Option<Seq<char>>) -> Result<Seq<char>, Fault> {
    match tables_for(s, rev) {
        Err(e) => Err(e),
        Ok(tables) => Ok(
            crate::digest::hex_text(
                crate::digest::sha256_digest(
                    db_bytes(tables, crate::names::ordered(tables.dom())),
                ).take(20),
            ),
        ),
    }
}

fn bytes_of_tables(tables: &Tables) -> (r: Vec<u8>)
    ensures
        r@ == db_bytes(tables.deep_view(), crate::names::ordered(tables.deep_view().dom())),
{
    let ghost m = tables.deep_view();
    let names = sorted_keys(tables);
    let ghost list = names.deep_view();
    let mut data: Vec<u8> = Vec::new();
    let mut i: usize = 0;
    assert(list.take(0) =~= seq![]);
    while i < names.len()
        invariant
            i <= names@.len(),
            m == tables.deep_view(),
            list == names.deep_view(),
            list.to_set() == m.dom(),
            data@ == db_bytes(m, list.take(i as int)),
        decreases names.len() - i,
    {
        proof {
            assert(list[i as int] == names@[i as int]@);
            assert(list.to_set().contains(list[i as int]));
            assert(list.take(i + 1).drop_last() =~= list.take(i as int));
        }
        match tables.get(&names[i]) {
            Some(snap) => {
                let ghost before = data@;
                push_all(&mut data, names[i].as_str().as_bytes());
                data.push(0u8);
                let body = encode_snapshot(snap);
                push_all(&mut data, body.as_slice());
                assert(data@ =~= before + crate::text::utf8(list[i as int]) + seq![0u8]
                    + crate::remote_wire::snapshot_bytes(m[list[i as int]]));
            },
            None => {},
        }
        i = i + 1;
    }
    assert(list.take(i as int) =~= list);
    data
}

impl VcStore {
    /// The hash of a table's contents at a revision, or in the working set and
    /// else at the head.
    pub fn table_hash(&self, table: &str, revision: Option<&str>) -> (r: VersionResult<String>)
        ensures
            ({
                let rev = match revision {
                    Some(t) => Some(t@),
                    None => None,
                };
                match table_hash_of(self.deep_view(), table@, rev) {
                    Ok(h) => r matches Ok(x) && x@ == h,
                    Err(e) => r matches Err(x) && x.deep_view() == e,
                }
            }),
    {
        let key = table.to_owned();
        match revision {
            Some(rev) => {
                let id = match self.resolve(rev) {
                    Ok(id) => id,
                    Err(e) => {
                        return Err(e);
                    },
                };
                match self.snapshots.get(&id) {
                    Some(tables) => match tables.get(&key) {
                        Some(snap) => Ok(snapshot_id(snap).to_hex()),
                        None => Err(VersionError::TableNotFound(key)),
                    },
                    None => Err(VersionError::TableNotFound(key)),
                }
            },
            None => match self.work.get(&key) {
                Some(snap) => Ok(snapshot_id(snap).to_hex()),
                None => match self.head_commit() {
                    Some(id) => match self.snapshots.get(&id) {
                        Some(tables) => match tables.get(&key) {
                            Some(snap) => Ok(snapshot_id(snap).to_hex()),
                            None => Err(VersionError::TableNotFound(key)),
                        },
                        None => Err(VersionError::TableNotFound(key)),
                    },
                    None => Err(VersionError::TableNotFound(key)),
                },
            },
        }
    }

    /// The hash of all tables at a revision, or in the working set.
    pub fn db_hash(&self, revision: Option<&str>) -> (r: VersionResult<String>)
        ensures
            ({
                let rev = match revision {
                    Some(t) => Some(t@),
                    None => None,
                };
                match db_hash_of(self.deep_view(), rev) {
                    Ok(h) => r matches Ok(x) && x@ == h,
                    Err(e) => r matches Err(x) && x.deep_view() == e,
                }
            }),
    {
        let data = match revision {
            Some(rev) => {
                let id = match self.resolve(rev) {
                    Ok(id) => id,
                    Err(e) => {
                        return Err(e);
                    },
                };
                let tables = crate::staging::tables_of(&self.snapshots, &id);
                bytes_of_tables(&tables)
            },
            None => bytes_of_tables(&self.work),
        };
        Ok(hash_bytes(data.as_slice()))
    }
}

/// Twenty bytes of the digest, in hexadecimal digits.
fn hash_bytes(data: &[u8]) -> (r: String)
    ensures
        r@ == crate::digest::hex_text(crate::digest::sha256_digest(data@).take(20)),
{
    let digest = sha256_of(data);
    let head = crate::octets::cut(vstd::array::array_as_slice(&digest), 0, 20);
    assert(head@ =~= digest@.take(20));
    hex_of(head.as_slice())
}

/// The table and perhaps the revision of a hash.
pub open spec fn hash_table_scalar(s: StoreModel, a: ArgsModel) -> Result<ValueModel, Fault> {
    if (a.len() == 1 || a.len() == 2) && all_texts(a) {
        match table_hash_of(
            s,
            a[0]->Text_0,
            if a.len() == 2 {
                Some(a[1]->Text_0)
            } else {
                None
            },
        ) {
            Ok(h) => Ok(FuncValue::Text(h)),
            Err(e) => Err(e),
        }
    } else {
        crate::func_args::wrong_args("dolt_hashof_table"@)
    }
}

/// `dolt_hashof_table`: the hash of a table's contents.
pub fn dolt_hashof_table<V: VcOperations>(vc: &V, args: &[FuncArg]) -> (r: VersionResult<FuncValue>)
    ensures
        crate::model::outcome(r) == hash_table_scalar(
            vc.deep_view(),
            crate::func_args::args_of(args@),
        ),
{
    let ghost a = crate::func_args::args_of(args@);
    if args.len() != 1 && args.len() != 2 {
        return refuse("dolt_hashof_table");
    }
    let words = match all_text("dolt_hashof_table", args) {
        Ok(w) => w,
        Err(e) => {
            return Err(e);
        },
    };
    assert(texts(a).len() == words@.len());
    assert(texts(a)[0] == words@[0]@);
    let rev = if words.len() == 2 {
        assert(texts(a)[1] == words@[1]@);
        Some(words[1])
    } else {
        None
    };
    match vc.table_hash(words[0], rev) {
        Ok(h) => Ok(FuncValue::Text(h)),
        Err(e) => Err(e),
    }
}

/// The revision of a database hash.
pub open spec fn hash_db_scalar(s: StoreModel, a: ArgsModel) -> Result<ValueModel, Fault> {
    if a.len() == 0 || (a.len() == 1 && a[0] is Text) {
        match db_hash_of(
            s,
            if a.len() == 1 {
                Some(a[0]->Text_0)
            } else {
                None
            },
        ) {
            Ok(h) => Ok(FuncValue::Text(h)),
            Err(e) => Err(e),
        }
    } else {
        crate::func_args::wrong_args("dolt_hashof_db"@)
    }
}

/// `dolt_hashof_db`: the hash of all tables.
pub fn dolt_hashof_db<V: VcOperations>(vc: &V, args: &[FuncArg]) -> (r: VersionResult<FuncValue>)
    ensures
        crate::model::outcome(r) == hash_db_scalar(
            vc.deep_view(),
            crate::func_args::args_of(args@),
        ),
{
    let ghost a = crate::func_args::args_of(args@);
    if args.len() > 1 {
        return refuse("dolt_hashof_db");
    }
    let rev = if args.len() == 1 {
        assert(a[0] == args@[0].deep_view());
        match text("dolt_hashof_db", &args[0]) {
            Ok(t) => Some(t),
            Err(e) => {
                return Err(e);
            },
        }
    } else {
        None
    };
    match vc.db_hash(rev) {
        Ok(h) => Ok(FuncValue::Text(h)),
        Err(e) => Err(e),
    }
}

// ---------------------------------------------------------------------------
// Merges and replays
// ---------------------------------------------------------------------------

/// The value of a merge or replay: the new commit, the conflicts, or nothing.
pub open spec fn result_value(m: ResultModel) -> ValueModel {
    match m {
        MergeResult::Committed(id) => FuncValue::Text(crate::digest::hex_text(id)),
        MergeResult::Conflicts { rows, tables } => FuncValue::Text(
            "merge conflict: "@ + crate::text::decimal(rows as nat) + " conflicting rows in "@
                + crate::text::decimal(tables as nat) + " tables"@,
        ),
        MergeResult::SchemaConflict { table, detail } => FuncValue::Text(
            "schema conflict in table: "@ + table + " ("@ + detail + ")"@,
        ),
        MergeResult::Applied => FuncValue::Integer(0),
    }
}

/// A repository after a merge or replay, and its value.
pub open spec fn merging(r: (StoreModel, Result<ResultModel, Fault>)) -> Scalar {
    (
        r.0,
        match r.1 {
            Ok(m) => Ok(result_value(m)),
            Err(e) => Err(e),
        },
    )
}

/// The value of a merge or replay.
pub fn merge_result(result: MergeResult) -> (r: FuncValue)
    ensures
        r.deep_view() == result_value(result.deep_view()),
{
    match result {
        MergeResult::Committed(id) => FuncValue::Text(id.to_hex()),
        MergeResult::Conflicts { rows, tables } => {
            let n = decimal_text(rows as u64);
            let t = decimal_text(tables as u64);
            FuncValue::Text(
                cat5(
                    "merge conflict: ",
                    n.as_str(),
                    " conflicting rows in ",
                    t.as_str(),
                    " tables",
                ),
            )
        },
        MergeResult::SchemaConflict { table, detail } => FuncValue::Text(
            cat5("schema conflict in table: ", table.as_str(), " (", detail.as_str(), ")"),
        ),
        MergeResult::Applied => FuncValue::Integer(0),
    }
}

fn report_merge(r: VersionResult<MergeResult>) -> (v: VersionResult<FuncValue>)
    ensures
        crate::model::outcome(v) == (match crate::model::outcome(r) {
            Ok(m) => Ok(result_value(m)),
            Err(e) => Err(e),
        }),
{
    match r {
        Ok(m) => Ok(merge_result(m)),
        Err(e) => Err(e),
    }
}

/// `dolt_merge`: merge a branch, or abort the open merge. `--squash` makes one
/// parent, `--no-commit` makes no commit, and `-m` with a number picks a parent of
/// a merge commit as the base.
pub open spec fn merge_scalar(s: StoreModel, a: ArgsModel) -> Scalar {
    if a.len() == 1 && a[0] is Text {
        if a[0]->Text_0 == "--abort"@ {
            silent(crate::replay::merge_aborted(s))
        } else {
            merging(crate::replay::merge_run(s, a[0]->Text_0, false, false, None))
        }
    } else if a.len() == 2 && a[0] is Text && crate::func_args::says(a[1], "--squash"@) {
        merging(crate::replay::merge_run(s, a[0]->Text_0, true, false, None))
    } else if a.len() == 2 && a[0] is Text && crate::func_args::says(a[1], "--no-commit"@) {
        merging(crate::replay::merge_run(s, a[0]->Text_0, false, true, None))
    } else if a.len() == 3 {
        match crate::func_args::replay_args("dolt_merge"@, a) {
            Ok((branch, parent)) => merging(
                crate::replay::merge_run(s, branch, false, false, parent),
            ),
            Err(e) => (s, Err(e)),
        }
    } else {
        (s, crate::func_args::wrong_args("dolt_merge"@))
    }
}

/// `dolt_merge`: merge a branch, or abort the open merge.
pub fn dolt_merge<V: VcOperations>(vc: &mut V, args: &[FuncArg]) -> (r: VersionResult<FuncValue>)
    ensures
        merge_scalar(old(vc).deep_view(), crate::func_args::args_of(args@)) == (
            final(vc).deep_view(),
            crate::model::outcome(r),
        ),
{
    let ghost a = crate::func_args::args_of(args@);
    if args.len() == 3 {
        return match parse_replay_args("dolt_merge", args) {
            Ok((branch, parent)) => report_merge(vc.merge_branch(branch, false, false, parent)),
            Err(e) => Err(e),
        };
    }
    if args.len() != 1 && args.len() != 2 {
        return refuse("dolt_merge");
    }
    assert(a[0] == args@[0].deep_view());
    let first = match text("dolt_merge", &args[0]) {
        Ok(t) => t,
        Err(e) => {
            return Err(e);
        },
    };
    if args.len() == 1 {
        if str_eq(first, "--abort") {
            return report_zero(vc.merge_abort());
        }
        return report_merge(vc.merge_branch(first, false, false, None));
    }
    assert(a[1] == args@[1].deep_view());
    if arg_says(&args[1], "--squash") {
        proof {
            reveal_strlit("--squash");
            reveal_strlit("--no-commit");
        }
        return report_merge(vc.merge_branch(first, true, false, None));
    }
    if arg_says(&args[1], "--no-commit") {
        return report_merge(vc.merge_branch(first, false, true, None));
    }
    refuse("dolt_merge")
}

/// `dolt_merge_base`: the nearest common ancestor of two revisions; null where
/// there is none.
pub open spec fn merge_base_scalar(s: StoreModel, a: ArgsModel) -> Result<ValueModel, Fault> {
    if a.len() == 2 && a[0] is Text && a[1] is Text {
        match crate::operations::base_of_revisions(s, a[0]->Text_0, a[1]->Text_0) {
            Err(e) => Err(e),
            Ok(None) => Ok(FuncValue::Null),
            Ok(Some(id)) => Ok(FuncValue::Text(crate::digest::hex_text(id))),
        }
    } else {
        crate::func_args::wrong_args("dolt_merge_base"@)
    }
}

/// `dolt_merge_base`: the nearest common ancestor of two revisions.
pub fn dolt_merge_base<V: VcOperations>(vc: &V, args: &[FuncArg]) -> (r: VersionResult<FuncValue>)
    ensures
        crate::model::outcome(r) == merge_base_scalar(
            vc.deep_view(),
            crate::func_args::args_of(args@),
        ),
{
    let ghost a = crate::func_args::args_of(args@);
    if args.len() != 2 {
        return refuse("dolt_merge_base");
    }
    assert(a[0] == args@[0].deep_view());
    assert(a[1] == args@[1].deep_view());
    let x = match text("dolt_merge_base", &args[0]) {
        Ok(t) => t,
        Err(e) => {
            return Err(e);
        },
    };
    let y = match text("dolt_merge_base", &args[1]) {
        Ok(t) => t,
        Err(e) => {
            return Err(e);
        },
    };
    match vc.merge_base(x, y) {
        Ok(Some(id)) => Ok(FuncValue::Text(id.to_hex())),
        Ok(None) => Ok(FuncValue::Null),
        Err(e) => Err(e),
    }
}

/// `dolt_cherry_pick`: replay a commit onto the head.
pub open spec fn cherry_pick_scalar(s: StoreModel, a: ArgsModel) -> Scalar {
    match crate::func_args::replay_args("dolt_cherry_pick"@, a) {
        Ok((rev, parent)) => merging(crate::replay::cherry_picked(s, rev, parent)),
        Err(e) => (s, Err(e)),
    }
}

/// `dolt_cherry_pick`: replay a commit onto the head.
pub fn dolt_cherry_pick<V: VcOperations>(vc: &mut V, args: &[FuncArg]) -> (r: VersionResult<FuncValue>)
    ensures
        cherry_pick_scalar(old(vc).deep_view(), crate::func_args::args_of(args@)) == (
            final(vc).deep_view(),
            crate::model::outcome(r),
        ),
{
    match parse_replay_args("dolt_cherry_pick", args) {
        Ok((rev, parent)) => report_merge(vc.cherry_pick(rev, parent)),
        Err(e) => Err(e),
    }
}

/// `dolt_revert`: replay the inverse of a commit onto the head.
pub open spec fn revert_scalar(s: StoreModel, a: ArgsModel) -> Scalar {
    match crate::func_args::replay_args("dolt_revert"@, a) {
        Ok((rev, parent)) => merging(crate::replay::reverted(s, rev, parent)),
        Err(e) => (s, Err(e)),
    }
}

/// `dolt_revert`: replay the inverse of a commit onto the head.
pub fn dolt_revert<V: VcOperations>(vc: &mut V, args: &[FuncArg]) -> (r: VersionResult<FuncValue>)
    ensures
        revert_scalar(old(vc).deep_view(), crate::func_args::args_of(args@)) == (
            final(vc).deep_view(),
            crate::model::outcome(r),
        ),
{
    match parse_replay_args("dolt_revert", args) {
        Ok((rev, parent)) => report_merge(vc.revert(rev, parent)),
        Err(e) => Err(e),
    }
}

// ---------------------------------------------------------------------------
// Rebase
// ---------------------------------------------------------------------------

/// A row of a plan: an action, a revision and for `reword` a message.
pub open spec fn plan_row(s: StoreModel, name: Seq<char>, row: Seq<char>) -> Result<StepModel, Fault> {
    let words = crate::text::split_words(row);
    if words.len() < 2 {
        crate::func_args::wrong_args(name)
    } else {
        match crate::staging::named(s, words[1]) {
            Err(e) => Err(e),
            Ok(id) => if words[0] == "pick"@ {
                Ok(RebaseStep::Pick(id))
            } else if words[0] == "drop"@ {
                Ok(RebaseStep::Drop(id))
            } else if words[0] == "squash"@ {
                Ok(RebaseStep::Squash(id))
            } else if words[0] == "fixup"@ {
                Ok(RebaseStep::Fixup(id))
            } else if words[0] == "reword"@ && words.len() > 2 {
                Ok(RebaseStep::Reword(id, crate::text::joined(words.skip(2), " "@)))
            } else {
                crate::func_args::wrong_args(name)
            },
        }
    }
}

/// The rows of a plan from place `i` on, behind those read.
pub open spec fn plan_from(
    s: StoreModel,
    name: Seq<char>,
    a: ArgsModel,
    i: int,
    done: Seq<StepModel>,
) -> Result<Seq<StepModel>, Fault>
    decreases a.len() - i,
{
    if i >= a.len() {
        Ok(done)
    } else {
        match crate::func_args::text_of(a[i]) {
            None => crate::func_args::wrong_args(name),
            Some(row) => match plan_row(s, name, row) {
                Err(e) => Err(e),
                Ok(step) => plan_from(s, name, a, i + 1, done.push(step)),
            },
        }
    }
}

/// The rows of a plan; there has to be one.
pub open spec fn plan_rows(s: StoreModel, name: Seq<char>, a: ArgsModel, from: int) -> Result<
    Seq<StepModel>,
    Fault,
> {
    if from >= a.len() {
        crate::func_args::wrong_args(name)
    } else {
        plan_from(s, name, a, from, seq![])
    }
}

fn words_from(words: &Vec<String>, from: usize) -> (r: Vec<String>)
    requires
        from <= words@.len(),
    ensures
        r.deep_view() == words.deep_view().skip(from as int),
{
    let r = crate::remote::part_of(words, from, words.len());
    assert(words.deep_view().subrange(from as int, words@.len() as int) =~= words.deep_view().skip(
        from as int,
    ));
    r
}

fn parse_step<V: VcOperations>(vc: &V, name: &str, row: &str) -> (r: VersionResult<RebaseStep>)
    ensures
        crate::model::outcome(r) == plan_row(vc.deep_view(), name@, row@),
{
    let words = words_of(row);
    let ghost w = words.deep_view();
    assert(w.len() == words@.len());
    if words.len() < 2 {
        return Err(VersionError::IncorrectArity(name.to_owned()));
    }
    assert(w[0] == words@[0]@);
    assert(w[1] == words@[1]@);
    let id = match vc.resolve(words[1].as_str()) {
        Ok(id) => id,
        Err(e) => {
            return Err(e);
        },
    };
    let action = words[0].as_str();
    if str_eq(action, "pick") {
        Ok(RebaseStep::Pick(id))
    } else if str_eq(action, "drop") {
        Ok(RebaseStep::Drop(id))
    } else if str_eq(action, "squash") {
        Ok(RebaseStep::Squash(id))
    } else if str_eq(action, "fixup") {
        Ok(RebaseStep::Fixup(id))
    } else if str_eq(action, "reword") && words.len() > 2 {
        let rest = words_from(&words, 2);
        Ok(RebaseStep::Reword(id, join(&rest, " ")))
    } else {
        Err(VersionError::IncorrectArity(name.to_owned()))
    }
}

/// Read the rows of a plan from place `from` on.
pub fn parse_rebase_steps<V: VcOperations>(vc: &V, name: &str, args: &[FuncArg], from: usize) -> (r:
    VersionResult<Vec<RebaseStep>>)
    ensures
        crate::model::outcome(r) == plan_rows(
            vc.deep_view(),
            name@,
            crate::func_args::args_of(args@),
            from as int,
        ),
{
    let ghost s = vc.deep_view();
    let ghost a = crate::func_args::args_of(args@);
    if from >= args.len() {
        return Err(VersionError::IncorrectArity(name.to_owned()));
    }
    let mut steps: Vec<RebaseStep> = Vec::new();
    let mut i: usize = from;
    assert(steps.deep_view() =~= seq![]);
    while i < args.len()
        invariant
            from <= i <= args@.len(),
            s == vc.deep_view(),
            a == crate::func_args::args_of(args@),
            from < args@.len(),
            plan_from(s, name@, a, i as int, steps.deep_view()) == plan_from(
                s,
                name@,
                a,
                from as int,
                seq![],
            ),
        decreases args.len() - i,
    {
        let ghost before = steps.deep_view();
        assert(a[i as int] == args@[i as int].deep_view());
        let row = match text(name, &args[i]) {
            Ok(t) => t,
            Err(e) => {
                return Err(e);
            },
        };
        let step = match parse_step(vc, name, row) {
            Ok(x) => x,
            Err(e) => {
                return Err(e);
            },
        };
        let ghost m = step.deep_view();
        steps.push(step);
        assert(steps.deep_view() =~= before.push(m));
        i = i + 1;
    }
    Ok(steps)
}

/// `dolt_rebase`: `--onto` a revision rebases, with `--plan` behind it only plans;
/// `--plan` with rows changes the plan; `--continue` and `--abort` go on and give
/// up.
pub open spec fn rebase_scalar(s: StoreModel, a: ArgsModel) -> Scalar {
    if a.len() == 1 && crate::func_args::says(a[0], "--continue"@) {
        with_hash(crate::replay::rebase_continued(s))
    } else if a.len() == 1 && crate::func_args::says(a[0], "--abort"@) {
        silent(crate::replay::rebase_aborted(s))
    } else if a.len() == 2 && crate::func_args::says(a[0], "--onto"@) && a[1] is Text {
        with_hash(crate::replay::rebased(s, a[1]->Text_0))
    } else if a.len() == 3 && crate::func_args::says(a[0], "--onto"@) && a[1] is Text
        && crate::func_args::says(a[2], "--plan"@) {
        let (t, out) = crate::replay::rebase_planned(s, a[1]->Text_0);
        (
            t,
            match out {
                Ok(n) => Ok(FuncValue::Integer(n as i64)),
                Err(e) => Err(e),
            },
        )
    } else if a.len() > 0 && crate::func_args::says(a[0], "--plan"@) {
        match plan_rows(s, "dolt_rebase"@, a, 1) {
            Err(e) => (s, Err(e)),
            Ok(steps) => silent(crate::replay::plan_edited(s, steps)),
        }
    } else {
        (s, crate::func_args::wrong_args("dolt_rebase"@))
    }
}

/// `dolt_rebase`: rebase, plan a rebase, change the plan, go on or give up.
pub fn dolt_rebase<V: VcOperations>(vc: &mut V, args: &[FuncArg]) -> (r: VersionResult<FuncValue>)
    ensures
        rebase_scalar(old(vc).deep_view(), crate::func_args::args_of(args@)) == (
            final(vc).deep_view(),
            crate::model::outcome(r),
        ),
{
    let ghost a = crate::func_args::args_of(args@);
    proof {
        reveal_strlit("--plan");
        reveal_strlit("--onto");
        reveal_strlit("--continue");
        reveal_strlit("--abort");
        assert("--plan"@.len() == 6 && "--onto"@[2] == 'o' && "--plan"@[2] == 'p');
    }
    if args.len() == 0 {
        return refuse("dolt_rebase");
    }
    assert(a[0] == args@[0].deep_view());
    if args.len() == 1 && arg_says(&args[0], "--continue") {
        return report_hash(vc.rebase_continue());
    }
    if args.len() == 1 && arg_says(&args[0], "--abort") {
        return report_zero(vc.rebase_abort());
    }
    if args.len() == 2 && arg_says(&args[0], "--onto") {
        assert(a[1] == args@[1].deep_view());
        return match text("dolt_rebase", &args[1]) {
            Ok(onto) => report_hash(vc.rebase_onto(onto)),
            Err(e) => Err(e),
        };
    }
    if args.len() == 3 && arg_says(&args[0], "--onto") && arg_says(&args[2], "--plan") {
        assert(a[1] == args@[1].deep_view());
        assert(a[2] == args@[2].deep_view());
        let onto = match text("dolt_rebase", &args[1]) {
            Ok(t) => t,
            Err(e) => {
                return Err(e);
            },
        };
        return match vc.rebase_plan(onto) {
            Ok(n) => Ok(FuncValue::Integer(n as i64)),
            Err(e) => Err(e),
        };
    }
    if arg_says(&args[0], "--plan") {
        let steps = match parse_rebase_steps(vc, "dolt_rebase", args, 1) {
            Ok(x) => x,
            Err(e) => {
                return Err(e);
            },
        };
        return report_zero(vc.rebase_edit_plan(steps));
    }
    if args.len() == 3 {
        assert(a[2] == args@[2].deep_view());
    }
    refuse("dolt_rebase")
}

// ---------------------------------------------------------------------------
// Conflicts and constraints
// ---------------------------------------------------------------------------

/// `dolt_conflicts_resolve`: take one side of a conflict in a table, at a key.
pub open spec fn resolve_scalar(s: StoreModel, a: ArgsModel) -> Scalar {
    if a.len() < 2 || !(a[0] is Text) {
        (s, crate::func_args::wrong_args("dolt_conflicts_resolve"@))
    } else if a[0]->Text_0 != "--ours"@ && a[0]->Text_0 != "--theirs"@ {
        (s, Err(VersionError::InvalidResolveSide(a[0]->Text_0)))
    } else if !(a[1] is Text) {
        (s, crate::func_args::wrong_args("dolt_conflicts_resolve"@))
    } else {
        silent(
            crate::conflicts::resolution(
                s,
                a[1]->Text_0,
                a.skip(2),
                if a[0]->Text_0 == "--ours"@ {
                    ResolveSide::Ours
                } else {
                    ResolveSide::Theirs
                },
            ),
        )
    }
}

/// `dolt_conflicts_resolve`: take one side of a conflict in a table, at a key.
pub fn dolt_conflicts_resolve<V: VcOperations>(vc: &mut V, args: &[FuncArg]) -> (r: VersionResult<FuncValue>)
    ensures
        resolve_scalar(old(vc).deep_view(), crate::func_args::args_of(args@)) == (
            final(vc).deep_view(),
            crate::model::outcome(r),
        ),
{
    let ghost a = crate::func_args::args_of(args@);
    if args.len() < 2 {
        return refuse("dolt_conflicts_resolve");
    }
    assert(a[0] == args@[0].deep_view());
    assert(a[1] == args@[1].deep_view());
    let word = match text("dolt_conflicts_resolve", &args[0]) {
        Ok(t) => t,
        Err(e) => {
            return Err(e);
        },
    };
    let side = if str_eq(word, "--ours") {
        ResolveSide::Ours
    } else if str_eq(word, "--theirs") {
        ResolveSide::Theirs
    } else {
        return Err(VersionError::InvalidResolveSide(word.to_owned()));
    };
    let table = match text("dolt_conflicts_resolve", &args[1]) {
        Ok(t) => t,
        Err(e) => {
            return Err(e);
        },
    };
    let mut pk: Vec<VcValue> = Vec::new();
    let mut i: usize = 2;
    while i < args.len()
        invariant
            2 <= i <= args@.len(),
            a == crate::func_args::args_of(args@),
            pk@.len() == i - 2,
            forall|j: int| 0 <= j < i - 2 ==> (#[trigger] pk@[j]).deep_view() == a[j + 2],
        decreases args.len() - i,
    {
        assert(a[i as int] == args@[i as int].deep_view());
        pk.push(arg_to_value(&args[i]));
        i = i + 1;
    }
    assert(pk.deep_view() =~= a.skip(2));
    report_zero(vc.resolve_conflict(table, &pk, side))
}

/// `dolt_verify_constraints`: note the violations of the working set; how many.
pub open spec fn verify_scalar(s: StoreModel, a: ArgsModel) -> Scalar {
    if a.len() != 0 {
        (s, crate::func_args::wrong_args("dolt_verify_constraints"@))
    } else {
        let (t, out) = crate::replay::checked(s);
        (
            t,
            match out {
                Ok(n) => Ok(FuncValue::Integer(n as i64)),
                Err(e) => Err(e),
            },
        )
    }
}

/// `dolt_verify_constraints`: note the violations of the working set; how many.
pub fn dolt_verify_constraints<V: VcOperations>(vc: &mut V, args: &[FuncArg]) -> (r: VersionResult<FuncValue>)
    ensures
        verify_scalar(old(vc).deep_view(), crate::func_args::args_of(args@)) == (
            final(vc).deep_view(),
            crate::model::outcome(r),
        ),
{
    if args.len() != 0 {
        return refuse("dolt_verify_constraints");
    }
    match vc.verify_constraints() {
        Ok(n) => Ok(FuncValue::Integer(n as i64)),
        Err(e) => Err(e),
    }
}

// ---------------------------------------------------------------------------
// Remotes
// ---------------------------------------------------------------------------

/// `dolt_remote`: add or remove a remote.
pub open spec fn remote_scalar(s: StoreModel, a: ArgsModel) -> Scalar {
    if a.len() == 0 {
        (s, Err(VersionError::UsageDoltRemote))
    } else if a.len() == 1 {
        (s, Err(VersionError::ActionAndNameRequired))
    } else if a.len() > 3 {
        (s, Err(VersionError::TooManyArguments))
    } else if !(a[0] is Text) {
        (s, crate::func_args::wrong_args("dolt_remote"@))
    } else if a[0]->Text_0 != "add"@ && a[0]->Text_0 != "remove"@ {
        (s, Err(VersionError::UnknownRemoteAction))
    } else if a.len() == 2 && a[0]->Text_0 == "add"@ {
        (s, Err(VersionError::UrlRequiredForAdd))
    } else if a.len() == 3 && a[0]->Text_0 == "remove"@ {
        (s, Err(VersionError::TooManyArguments))
    } else if !all_texts(a) {
        (s, crate::func_args::wrong_args("dolt_remote"@))
    } else if a.len() == 2 {
        silent(crate::remote::remote_removed(s, a[1]->Text_0))
    } else {
        silent(crate::remote::remote_added(s, a[1]->Text_0, a[2]->Text_0))
    }
}

/// `dolt_remote`: add or remove a remote.
pub fn dolt_remote<V: VcOperations>(vc: &mut V, args: &[FuncArg]) -> (r: VersionResult<FuncValue>)
    ensures
        remote_scalar(old(vc).deep_view(), crate::func_args::args_of(args@)) == (
            final(vc).deep_view(),
            crate::model::outcome(r),
        ),
{
    let ghost a = crate::func_args::args_of(args@);
    let n = args.len();
    if n == 0 {
        return Err(VersionError::UsageDoltRemote);
    }
    if n == 1 {
        return Err(VersionError::ActionAndNameRequired);
    }
    if n > 3 {
        return Err(VersionError::TooManyArguments);
    }
    proof {
        reveal_strlit("add");
        reveal_strlit("remove");
        assert("add"@.len() != "remove"@.len());
        assert(a[0] == args@[0].deep_view());
        assert(a[1] == args@[1].deep_view());
    }
    let action = match text("dolt_remote", &args[0]) {
        Ok(t) => t,
        Err(e) => {
            return Err(e);
        },
    };
    let adding = str_eq(action, "add");
    if !adding && !str_eq(action, "remove") {
        return Err(VersionError::UnknownRemoteAction);
    }
    if n == 2 && adding {
        return Err(VersionError::UrlRequiredForAdd);
    }
    if n == 3 && !adding {
        return Err(VersionError::TooManyArguments);
    }
    let words = match all_text("dolt_remote", args) {
        Ok(w) => w,
        Err(e) => {
            return Err(e);
        },
    };
    assert(texts(a).len() == words@.len());
    assert(texts(a)[1] == words@[1]@);
    if n == 2 {
        return report_zero(vc.remote_remove(words[1]));
    }
    assert(texts(a)[2] == words@[2]@);
    report_zero(vc.remote_add(words[1], words[2]))
}

/// `dolt_push`: push a branch through a transport.
pub open spec fn push_scalar<T: RemoteTransport>(s: StoreModel, t: T::State, a: ArgsModel) -> (
    T::State,
    Result<ValueModel, Fault>,
) {
    match crate::func_args::push_args(a) {
        Err(e) => (t, Err(e)),
        Ok((remote, branch, force)) => {
            let (u, out) = crate::remote::pushed::<T>(s, t, remote, branch, force);
            (
                u,
                match out {
                    Ok(_) => zero(),
                    Err(e) => Err(e),
                },
            )
        },
    }
}

/// `dolt_push`: push a branch through a transport.
pub fn dolt_push<V: VcOperations, T: RemoteTransport>(vc: &V, transport: &mut T, args: &[FuncArg]) -> (r:
    VersionResult<FuncValue>)
    ensures
        push_scalar::<T>(
            vc.deep_view(),
            old(transport).state(),
            crate::func_args::args_of(args@),
        ) == (final(transport).state(), crate::model::outcome(r)),
{
    match parse_push_args(args) {
        Ok((remote, branch, force)) => report_zero(vc.push_branch(transport, remote, branch, force)),
        Err(e) => Err(e),
    }
}

/// A repository and a remote after a function, and the function's value.
pub type RemoteScalar<S> = (StoreModel, S, Result<ValueModel, Fault>);

/// A transfer that reports nothing.
pub open spec fn quietly<S>(r: crate::remote::Transfer<S>) -> RemoteScalar<S> {
    (
        r.0,
        r.1,
        match r.2 {
            Ok(_) => zero(),
            Err(e) => Err(e),
        },
    )
}

/// `dolt_fetch`: fetch a branch, or the remote's default branch.
pub open spec fn fetch_scalar<T: RemoteTransport>(s: StoreModel, t: T::State, a: ArgsModel) -> RemoteScalar<
    T::State,
> {
    match crate::func_args::fetch_args(a) {
        Err(e) => (s, t, Err(e)),
        Ok((remote, branch)) => quietly(
            crate::operations::fetched_from::<T>(s, t, remote, branch),
        ),
    }
}

/// `dolt_fetch`: fetch a branch, or the remote's default branch.
pub fn dolt_fetch<V: VcOperations, T: RemoteTransport>(vc: &mut V, transport: &mut T, args: &[FuncArg]) -> (r:
    VersionResult<FuncValue>)
    ensures
        fetch_scalar::<T>(
            old(vc).deep_view(),
            old(transport).state(),
            crate::func_args::args_of(args@),
        ) == (final(vc).deep_view(), final(transport).state(), crate::model::outcome(r)),
{
    let (remote, branch) = match parse_fetch_args(args) {
        Ok(x) => x,
        Err(e) => {
            return Err(e);
        },
    };
    report_zero(vc.fetch(transport, remote, branch))
}

/// `dolt_pull`: fetch a branch and catch up with it.
pub open spec fn pull_scalar<T: RemoteTransport>(s: StoreModel, t: T::State, a: ArgsModel) -> RemoteScalar<
    T::State,
> {
    match crate::func_args::pull_args(a) {
        Err(e) => (s, t, Err(e)),
        Ok((remote, branch)) => {
            let (next, u, out) = crate::remote::pulled::<T>(s, t, remote, branch);
            (
                next,
                u,
                match out {
                    Ok(_) => zero(),
                    Err(e) => Err(e),
                },
            )
        },
    }
}

/// `dolt_pull`: fetch a branch and catch up with it.
pub fn dolt_pull<V: VcOperations, T: RemoteTransport>(vc: &mut V, transport: &mut T, args: &[FuncArg]) -> (r:
    VersionResult<FuncValue>)
    ensures
        pull_scalar::<T>(
            old(vc).deep_view(),
            old(transport).state(),
            crate::func_args::args_of(args@),
        ) == (final(vc).deep_view(), final(transport).state(), crate::model::outcome(r)),
{
    let (remote, branch) = match parse_pull_args(args) {
        Ok(x) => x,
        Err(e) => {
            return Err(e);
        },
    };
    report_zero(vc.pull(transport, remote, branch))
}

/// `dolt_clone`: clone a remote.
pub open spec fn clone_scalar<T: RemoteTransport>(s: StoreModel, t: T::State, a: ArgsModel) -> RemoteScalar<
    T::State,
> {
    match crate::func_args::clone_args(a) {
        Err(e) => (s, t, Err(e)),
        Ok((url, lazy)) => quietly(crate::remote::cloned_from::<T>(s, t, url, lazy)),
    }
}

/// `dolt_clone`: clone a remote.
pub fn dolt_clone<V: VcOperations, T: RemoteTransport>(vc: &mut V, transport: &mut T, args: &[FuncArg]) -> (r:
    VersionResult<FuncValue>)
    ensures
        clone_scalar::<T>(
            old(vc).deep_view(),
            old(transport).state(),
            crate::func_args::args_of(args@),
        ) == (final(vc).deep_view(), final(transport).state(), crate::model::outcome(r)),
{
    match parse_clone_args(args) {
        Ok((url, lazy)) => report_zero(vc.clone_remote(transport, url, lazy)),
        Err(e) => Err(e),
    }
}

// ---------------------------------------------------------------------------
// Housekeeping
// ---------------------------------------------------------------------------

/// `dolt_gc`: remove what nothing reaches, where the repository is quiet.
pub open spec fn gc_scalar(s: StoreModel, a: ArgsModel) -> Scalar {
    if a.len() != 0 {
        (s, crate::func_args::wrong_args("dolt_gc"@))
    } else {
        let (t, out) = crate::operations::swept(s);
        (
            t,
            match out {
                Ok(text) => Ok(FuncValue::Text(text)),
                Err(e) => Err(e),
            },
        )
    }
}

/// `dolt_gc`: remove what nothing reaches, where the repository is quiet.
pub fn dolt_gc<V: VcOperations>(vc: &mut V, args: &[FuncArg]) -> (r: VersionResult<FuncValue>)
    ensures
        gc_scalar(old(vc).deep_view(), crate::func_args::args_of(args@)) == (
            final(vc).deep_view(),
            crate::model::outcome(r),
        ),
{
    if args.len() != 0 {
        return refuse("dolt_gc");
    }
    match vc.gc() {
        Ok(text) => Ok(FuncValue::Text(text)),
        Err(e) => Err(e),
    }
}

/// `dolt_creds_new`: issue a credential; its id.
pub fn dolt_creds_new<C: CredStore>(creds: &mut C, args: &[FuncArg]) -> (r: VersionResult<FuncValue>)
    requires
        old(creds).has_room(),
    ensures
        args@.len() == 0 ==> exists|kid: Seq<char>|
            {
                &&& crate::model::outcome(r) == Ok::<ValueModel, Fault>(FuncValue::Text(kid))
                &&& #[trigger] old(creds).kids().push(kid) == final(creds).kids()
                &&& final(creds).active_kid() == Some(kid)
            },
        args@.len() != 0 ==> *final(creds) == *old(creds) && crate::model::outcome(r)
            == crate::func_args::wrong_args::<ValueModel>("dolt_creds_new"@),
{
    if args.len() != 0 {
        return refuse("dolt_creds_new");
    }
    let c = creds.issue();
    assert(old(creds).kids().push(c.kid@) == creds.kids());
    Ok(FuncValue::Text(c.kid))
}

/// `dolt_creds`: list the credentials, choose the active one or remove one.
pub fn dolt_creds<C: CredStore>(creds: &mut C, args: &[FuncArg]) -> (r: VersionResult<FuncValue>)
    ensures
        ({
            let a = crate::func_args::args_of(args@);
            let kids = old(creds).kids();
            let active = old(creds).active_kid();
            if a.len() == 0 {
                &&& *final(creds) == *old(creds)
                &&& crate::model::outcome(r) == Ok::<ValueModel, Fault>(
                    FuncValue::Text(
                        crate::text::joined(crate::creds::listed_kids(kids, active), "
"@),
                    ),
                )
            } else if a.len() != 2 {
                *final(creds) == *old(creds) && crate::model::outcome(r) == Err::<ValueModel, Fault>(
                    VersionError::UsageDoltCreds,
                )
            } else if !(a[0] is Text) || !(a[1] is Text) {
                *final(creds) == *old(creds) && crate::model::outcome(r)
                    == crate::func_args::wrong_args::<ValueModel>("dolt_creds"@)
            } else if a[0]->Text_0 != "use"@ && a[0]->Text_0 != "rm"@ {
                *final(creds) == *old(creds) && crate::model::outcome(r) == Err::<ValueModel, Fault>(
                    VersionError::UsageDoltCreds,
                )
            } else {
                let kid = a[1]->Text_0;
                &&& crate::model::outcome(r) == (if kids.contains(kid) {
                    Ok::<ValueModel, Fault>(FuncValue::Text(kid))
                } else {
                    Err(VersionError::NoSuchCredential)
                })
                &&& a[0]->Text_0 == "use"@ ==> final(creds).kids() == kids && final(creds).active_kid() == (if kids.contains(kid) {
                    Some(kid)
                } else {
                    active
                })
                &&& a[0]->Text_0 == "rm"@ ==> final(creds).kids() == crate::creds::without_kid(
                    kids,
                    kid,
                ) && final(creds).active_kid() == (if kids.contains(kid) && active == Some(kid) {
                    None
                } else {
                    active
                })
            }
        }),
{
    let ghost a = crate::func_args::args_of(args@);
    if args.len() == 0 {
        return Ok(FuncValue::Text(join(&creds.list(), "
")));
    }
    if args.len() != 2 {
        return Err(VersionError::UsageDoltCreds);
    }
    proof {
        reveal_strlit("use");
        reveal_strlit("rm");
        assert("use"@.len() != "rm"@.len());
        assert(a[0] == args@[0].deep_view());
        assert(a[1] == args@[1].deep_view());
    }
    let action = match text("dolt_creds", &args[0]) {
        Ok(t) => t,
        Err(e) => {
            return Err(e);
        },
    };
    let kid = match text("dolt_creds", &args[1]) {
        Ok(t) => t,
        Err(e) => {
            return Err(e);
        },
    };
    if str_eq(action, "use") {
        return report_name(creds.set_active(kid), kid);
    }
    if str_eq(action, "rm") {
        return report_name(creds.remove(kid), kid);
    }
    Err(VersionError::UsageDoltCreds)
}

/// `dolt_version`: the version of this library.
pub fn dolt_version(args: &[FuncArg]) -> (r: VersionResult<FuncValue>)
    ensures
        crate::model::outcome(r) == (if args@.len() == 0 {
            Ok::<ValueModel, Fault>(FuncValue::Text("v0.1.0"@))
        } else {
            crate::func_args::wrong_args("dolt_version"@)
        }),
{
    if args.len() != 0 {
        return refuse("dolt_version");
    }
    Ok(FuncValue::Text("v0.1.0".to_owned()))
}

/// `doltlite_engine`: the kind of storage.
pub fn doltlite_engine(args: &[FuncArg]) -> (r: VersionResult<FuncValue>)
    ensures
        crate::model::outcome(r) == (if args@.len() == 0 {
            Ok::<ValueModel, Fault>(FuncValue::Text("prolly"@))
        } else {
            crate::func_args::wrong_args("doltlite_engine"@)
        }),
{
    if args.len() != 0 {
        return refuse("doltlite_engine");
    }
    Ok(FuncValue::Text("prolly".to_owned()))
}

// ---------------------------------------------------------------------------
// Laws
// ---------------------------------------------------------------------------

/// A function that is called with the wrong arguments changes nothing.
pub proof fn law_wrong_arguments_change_nothing(s: StoreModel, a: ArgsModel)
    ensures
        add_scalar(s, a).1 == crate::func_args::wrong_args::<ValueModel>("dolt_add"@) ==> add_scalar(
            s,
            a,
        ).0 == s,
        a.len() > 1 ==> reset_scalar(s, a).0 == s && checkout_scalar(s, a).0 == s,
        a.len() > 2 ==> branch_scalar(s, a).0 == s && tag_scalar(s, a).0 == s && config_scalar(s, a).0 == s,
        a.len() > 3 ==> merge_scalar(s, a).0 == s && cherry_pick_scalar(s, a).0 == s && revert_scalar(
            s,
            a,
        ).0 == s && remote_scalar(s, a).0 == s,
        a.len() < 2 ==> resolve_scalar(s, a).0 == s && remote_scalar(s, a).0 == s,
        a.len() > 0 ==> clean_scalar(s, a).0 == s && verify_scalar(s, a).0 == s && gc_scalar(s, a).0
            == s,
{
}

/// The hash of a database depends on its tables alone: equal tables have equal
/// hashes, whatever history led to them.
pub proof fn law_equal_tables_have_equal_hashes(
    s: StoreModel,
    t: StoreModel,
    a: Option<Seq<char>>,
    b: Option<Seq<char>>,
)
    requires
        tables_for(s, a) is Ok,
        tables_for(s, a) == tables_for(t, b),
    ensures
        db_hash_of(s, a) == db_hash_of(t, b),
{
}

} // verus!
