//! What the functions of the host do, by the words they are called with.

use vstd::prelude::*;

use crate::conflicts::ResolveSide;
use crate::func_args::{ArgsModel, FuncValue};
use crate::funcs::Scalar;
use crate::staging::StoreModel;
use crate::table_merge::Fault;
use crate::values::CellModel;

verus! {

/// One text as arguments.
pub open spec fn one(a: Seq<char>) -> ArgsModel {
    seq![CellModel::Text(a)]
}

/// Two texts as arguments.
pub open spec fn two(a: Seq<char>, b: Seq<char>) -> ArgsModel {
    seq![CellModel::Text(a), CellModel::Text(b)]
}

/// Three texts as arguments.
pub open spec fn three(a: Seq<char>, b: Seq<char>, c: Seq<char>) -> ArgsModel {
    seq![CellModel::Text(a), CellModel::Text(b), CellModel::Text(c)]
}

/// Did a call leave the store that an operation leaves, and fail exactly with its error?
pub open spec fn passes_on<A>(call: Scalar, op: (StoreModel, Result<A, Fault>)) -> bool {
    &&& call.0 == op.0
    &&& match op.1 {
        Ok(_) => call.1 is Ok,
        Err(e) => call.1 == Err::<crate::func_args::ValueModel, Fault>(e),
    }
}

proof fn lemma_words()
    ensures
        "--soft"@ != "--hard"@,
        "-d"@ != "-D"@,
        "--squash"@ != "--no-commit"@,
        "--continue"@ != "--abort"@,
        "--ours"@ != "--theirs"@,
        "--onto"@ != "--plan"@,
        "add"@ != "remove"@,
{
    reveal_strlit("--soft");
    reveal_strlit("--hard");
    reveal_strlit("-d");
    reveal_strlit("-D");
    reveal_strlit("--squash");
    reveal_strlit("--no-commit");
    reveal_strlit("--continue");
    reveal_strlit("--abort");
    reveal_strlit("--ours");
    reveal_strlit("--theirs");
    reveal_strlit("--onto");
    reveal_strlit("--plan");
    reveal_strlit("add");
    reveal_strlit("remove");
    assert("--soft"@[2] == 's' && "--hard"@[2] == 'h');
    assert("-d"@[1] == 'd' && "-D"@[1] == 'D');
    assert("--squash"@.len() == 8 && "--no-commit"@.len() == 11);
    assert("--continue"@.len() == 10 && "--abort"@.len() == 7);
    assert("--ours"@.len() == 6 && "--theirs"@.len() == 8);
    assert("--onto"@[2] == 'o' && "--plan"@[2] == 'p');
    assert("add"@.len() == 3 && "remove"@.len() == 6);
}

/// Staging by name stages what is named and tells how many that are; `-A` stages every
/// change and nothing else.
pub proof fn law_add_by_words(s: StoreModel, name: Seq<char>, x: Seq<char>)
    requires
        s.detached is None,
        name != "-A"@,
        s.unstaged.finite(),
    ensures
        passes_on(crate::funcs::add_scalar(s, one(name)), crate::staging::add_tables(s, seq![name])),
        ({
            let (t, out) = crate::funcs::add_scalar(s, one("-A"@));
            &&& out is Ok
            &&& t.staged.contains(x) <==> s.staged.contains(x) || s.unstaged.contains(x)
            &&& !t.unstaged.contains(x)
            &&& crate::store_laws::same_history(s, t)
            &&& crate::store_laws::same_open_work(s, t)
            &&& t.work == s.work && t.tables == s.tables
        }),
        crate::funcs::add_scalar(s, seq![]).0 == s,
        crate::funcs::add_scalar(s, seq![]).1 is Err,
{
    assert(crate::funcs::texts(one(name)) =~= seq![name]);
    assert(crate::funcs::all_texts(one(name)));
    assert(crate::funcs::all_texts(one("-A"@)));
}

/// A commit is made with the words of its message joined by spaces.
pub proof fn law_commit_by_words(s: StoreModel, a: ArgsModel)
    ensures
        match crate::func_args::commit_args(a) {
            Ok(w) => {
                let op = crate::staging::committed(
                    s,
                    crate::text::joined(w.words, " "@),
                    w.author,
                    w.all,
                    w.force,
                );
                &&& passes_on(crate::funcs::commit_scalar(s, a), op)
                &&& op.1 matches Ok(id) ==> crate::funcs::commit_scalar(s, a).1 == Ok::<
                    crate::func_args::ValueModel,
                    Fault,
                >(FuncValue::Text(crate::digest::hex_text(id)))
            },
            Err(_) => crate::funcs::commit_scalar(s, a).0 == s && crate::funcs::commit_scalar(
                s,
                a,
            ).1 is Err,
        },
{
}

/// A reset without words or with `--soft` unstages; with `--hard` it goes back to the head.
pub proof fn law_reset_by_words(s: StoreModel)
    ensures
        passes_on(crate::funcs::reset_scalar(s, seq![]), crate::staging::soft_reset(s)),
        passes_on(crate::funcs::reset_scalar(s, one("--soft"@)), crate::staging::soft_reset(s)),
        passes_on(crate::funcs::reset_scalar(s, one("--hard"@)), crate::staging::hard_reset(s)),
{
    lemma_words();
}

/// Branches and tags by words: a name makes a branch or a tag at the head, a name and a
/// revision a tag there, `-d` and a name deletes one; a checkout goes to the branch named.
pub proof fn law_names_by_words(s: StoreModel, name: Seq<char>, rev: Seq<char>)
    requires
        name != "-d"@,
    ensures
        passes_on(crate::funcs::branch_scalar(s, one(name)), crate::staging::branched(s, name)),
        passes_on(
            crate::funcs::branch_scalar(s, two("-d"@, name)),
            crate::staging::unbranched(s, name),
        ),
        passes_on(
            crate::funcs::branch_scalar(s, two("-D"@, name)),
            crate::staging::unbranched(s, name),
        ),
        crate::funcs::branch_scalar(s, seq![]).0 == s,
        passes_on(crate::funcs::checkout_scalar(s, one(name)), crate::staging::checked_out(s, name)),
        match crate::staging::named(s, rev) {
            Ok(id) => passes_on(
                crate::funcs::tag_scalar(s, two(name, rev)),
                crate::staging::tagged(s, name, id),
            ),
            Err(e) => crate::funcs::tag_scalar(s, two(name, rev)) == (
                s,
                Err::<crate::func_args::ValueModel, Fault>(e),
            ),
        },
        match crate::staging::named(s, "HEAD"@) {
            Ok(id) => passes_on(
                crate::funcs::tag_scalar(s, one(name)),
                crate::staging::tagged(s, name, id),
            ),
            Err(e) => crate::funcs::tag_scalar(s, one(name)) == (
                s,
                Err::<crate::func_args::ValueModel, Fault>(e),
            ),
        },
        passes_on(
            crate::funcs::tag_scalar(s, two("-d"@, name)),
            crate::staging::untagged(s, name),
        ),
{
    lemma_words();
}

/// A setting that was made is read back, and no other setting changes with it.
pub proof fn law_settings_read_back(
    s: StoreModel,
    key: Seq<char>,
    value: Seq<char>,
    other: Seq<char>,
)
    requires
        other != key,
    ensures
        ({
            let t = crate::funcs::config_scalar(s, two(key, value)).0;
            &&& crate::funcs::config_scalar(t, one(key)) == (
                t,
                Ok::<crate::func_args::ValueModel, Fault>(FuncValue::Text(value)),
            )
            &&& crate::funcs::config_scalar(t, one(other)).1 == crate::funcs::config_scalar(
                s,
                one(other),
            ).1
            &&& crate::store_laws::same_working_state(s, t)
            &&& t.refs == s.refs && t.commits == s.commits && t.snapshots == s.snapshots
        }),
        !s.config.dom().contains(key) ==> crate::funcs::config_scalar(s, one(key)).1 == Ok::<
            crate::func_args::ValueModel,
            Fault,
        >(FuncValue::Null),
{
}

proof fn lemma_parent_number(k: u32)
    requires
        k < 0xffff,
    ensures
        crate::func_args::parent_in(crate::text::decimal((k + 1) as nat)) == Some(k as usize),
{
    crate::text::lemma_decimal_reads((k + 1) as nat, usize::MAX as nat);
}

/// Merges and replays by words: a branch merges it, with `--squash` into one parent, with
/// `--no-commit` without a commit, and `-m` with a number counted from one chooses a parent;
/// `--abort` gives up. The same goes for a cherry-pick and a revert of a revision.
pub proof fn law_merges_by_words(s: StoreModel, name: Seq<char>, k: u32)
    requires
        name != "--abort"@,
        k < 0xffff,
    ensures
        passes_on(
            crate::funcs::merge_scalar(s, one(name)),
            crate::replay::merge_run(s, name, false, false, None),
        ),
        passes_on(crate::funcs::merge_scalar(s, one("--abort"@)), crate::replay::merge_aborted(s)),
        passes_on(
            crate::funcs::merge_scalar(s, two(name, "--squash"@)),
            crate::replay::merge_run(s, name, true, false, None),
        ),
        passes_on(
            crate::funcs::merge_scalar(s, two(name, "--no-commit"@)),
            crate::replay::merge_run(s, name, false, true, None),
        ),
        passes_on(
            crate::funcs::merge_scalar(
                s,
                three(name, "-m"@, crate::text::decimal((k + 1) as nat)),
            ),
            crate::replay::merge_run(s, name, false, false, Some(k as usize)),
        ),
        passes_on(
            crate::funcs::cherry_pick_scalar(s, one(name)),
            crate::replay::cherry_picked(s, name, None),
        ),
        passes_on(
            crate::funcs::cherry_pick_scalar(
                s,
                three(name, "-m"@, crate::text::decimal((k + 1) as nat)),
            ),
            crate::replay::cherry_picked(s, name, Some(k as usize)),
        ),
        passes_on(
            crate::funcs::revert_scalar(s, one(name)),
            crate::replay::reverted(s, name, None),
        ),
        passes_on(
            crate::funcs::revert_scalar(
                s,
                three(name, "-m"@, crate::text::decimal((k + 1) as nat)),
            ),
            crate::replay::reverted(s, name, Some(k as usize)),
        ),
{
    lemma_words();
    lemma_parent_number(k);
}

/// A rebase by words: `--onto` rebases, with `--plan` behind it makes the plan only,
/// `--continue` goes on and `--abort` gives up.
pub proof fn law_rebase_by_words(s: StoreModel, rev: Seq<char>)
    ensures
        passes_on(
            crate::funcs::rebase_scalar(s, two("--onto"@, rev)),
            crate::replay::rebased(s, rev),
        ),
        passes_on(
            crate::funcs::rebase_scalar(s, three("--onto"@, rev, "--plan"@)),
            crate::replay::rebase_planned(s, rev),
        ),
        passes_on(
            crate::funcs::rebase_scalar(s, one("--continue"@)),
            crate::replay::rebase_continued(s),
        ),
        passes_on(
            crate::funcs::rebase_scalar(s, one("--abort"@)),
            crate::replay::rebase_aborted(s),
        ),
{
    lemma_words();
}

/// Each row of a plan names its action and its commit.
pub proof fn law_plan_rows_read(s: StoreModel, name: Seq<char>, row: Seq<char>, id: Seq<u8>)
    requires
        crate::text::split_words(row).len() >= 2,
        crate::staging::named(s, crate::text::split_words(row)[1]) == Ok::<Seq<u8>, Fault>(id),
    ensures
        ({
            let w = crate::text::split_words(row);
            let r = crate::funcs::plan_row(s, name, row);
            &&& w[0] == "pick"@ ==> r == Ok::<crate::replay_state::StepModel, Fault>(
                crate::replay_state::RebaseStep::Pick(id),
            )
            &&& w[0] == "drop"@ ==> r == Ok::<crate::replay_state::StepModel, Fault>(
                crate::replay_state::RebaseStep::Drop(id),
            )
            &&& w[0] == "squash"@ ==> r == Ok::<crate::replay_state::StepModel, Fault>(
                crate::replay_state::RebaseStep::Squash(id),
            )
            &&& w[0] == "fixup"@ ==> r == Ok::<crate::replay_state::StepModel, Fault>(
                crate::replay_state::RebaseStep::Fixup(id),
            )
            &&& w[0] == "reword"@ && w.len() > 2 ==> r == Ok::<
                crate::replay_state::StepModel,
                Fault,
            >(
                crate::replay_state::RebaseStep::Reword(
                    id,
                    crate::text::joined(w.skip(2), " "@),
                ),
            )
        }),
{
    reveal_strlit("pick");
    reveal_strlit("drop");
    reveal_strlit("squash");
    reveal_strlit("fixup");
    reveal_strlit("reword");
    assert("pick"@[0] == 'p' && "drop"@[0] == 'd' && "squash"@[0] == 's' && "fixup"@[0] == 'f'
        && "reword"@[0] == 'r');
}

/// A resolution by words takes our side for `--ours` and the other for `--theirs`, at the
/// key that the arguments behind the table make up.
pub proof fn law_resolution_by_words(s: StoreModel, table: Seq<char>, key: ArgsModel)
    ensures
        passes_on(
            crate::funcs::resolve_scalar(s, two("--ours"@, table) + key),
            crate::conflicts::resolution(s, table, key, ResolveSide::Ours),
        ),
        passes_on(
            crate::funcs::resolve_scalar(s, two("--theirs"@, table) + key),
            crate::conflicts::resolution(s, table, key, ResolveSide::Theirs),
        ),
{
    lemma_words();
    let a = two("--ours"@, table) + key;
    let b = two("--theirs"@, table) + key;
    assert(a[0] == CellModel::Text("--ours"@) && a[1] == CellModel::Text(table));
    assert(b[0] == CellModel::Text("--theirs"@) && b[1] == CellModel::Text(table));
    assert(a.skip(2) =~= key);
    assert(b.skip(2) =~= key);
}

/// Remotes by words: `add` with a name and a place adds one, `remove` with a name removes it.
pub proof fn law_remotes_by_words(s: StoreModel, name: Seq<char>, url: Seq<char>)
    ensures
        passes_on(
            crate::funcs::remote_scalar(s, three("add"@, name, url)),
            crate::remote::remote_added(s, name, url),
        ),
        passes_on(
            crate::funcs::remote_scalar(s, two("remove"@, name)),
            crate::remote::remote_removed(s, name),
        ),
{
    lemma_words();
    assert(crate::funcs::all_texts(three("add"@, name, url)));
    assert(crate::funcs::all_texts(two("remove"@, name)));
}

/// The words of a push, a fetch, a pull and a clone are read in their order; `--force` and
/// `--lazy` ask for these.
pub proof fn law_transfers_by_words(remote: Seq<char>, branch: Seq<char>)
    requires
        remote.len() > 0 && branch.len() > 0,
    ensures
        crate::func_args::push_args(two(remote, branch)) == Ok::<
            (Seq<char>, Seq<char>, bool),
            Fault,
        >((remote, branch, false)),
        crate::func_args::push_args(three(remote, branch, "--force"@)) == Ok::<
            (Seq<char>, Seq<char>, bool),
            Fault,
        >((remote, branch, true)),
        crate::func_args::fetch_args(one(remote)) == Ok::<
            (Seq<char>, Option<Seq<char>>),
            Fault,
        >((remote, None)),
        crate::func_args::fetch_args(two(remote, branch)) == Ok::<
            (Seq<char>, Option<Seq<char>>),
            Fault,
        >((remote, Some(branch))),
        crate::func_args::pull_args(two(remote, branch)) == Ok::<
            (Seq<char>, Seq<char>),
            Fault,
        >((remote, branch)),
        crate::func_args::clone_args(one(remote)) == Ok::<(Seq<char>, bool), Fault>(
            (remote, false),
        ),
        crate::func_args::clone_args(two("--lazy"@, remote)) == Ok::<(Seq<char>, bool), Fault>(
            (remote, true),
        ),
{
}

/// The table that a name stands for: at a revision the one held there, else the working
/// one, else the one at the head.
pub proof fn law_table_by_name(s: StoreModel, table: Seq<char>, rev: Seq<char>, id: Seq<u8>)
    requires
        crate::staging::named(s, rev) == Ok::<Seq<u8>, Fault>(id),
    ensures
        crate::store_laws::has_at(s, Some(id), table) ==> {
            &&& crate::funcs::table_at(s, table, Some(rev)) is Ok
            &&& crate::store_laws::held_at(
                s,
                Some(id),
                table,
                crate::funcs::table_at(s, table, Some(rev))->Ok_0,
            )
        },
        !crate::store_laws::has_at(s, Some(id), table) ==> crate::funcs::table_at(
            s,
            table,
            Some(rev),
        ) is Err,
        s.work.dom().contains(table) ==> crate::funcs::table_at(s, table, None) == Ok::<
            crate::staging::SnapModel,
            Fault,
        >(s.work[table]),
        !s.work.dom().contains(table) ==> {
            let at = crate::staging::head_of(s);
            match crate::funcs::table_at(s, table, None) {
                Ok(snap) => crate::store_laws::held_at(s, at, table, snap),
                Err(_) => !crate::store_laws::has_at(s, at, table),
            }
        },
{
}

} // verus!
