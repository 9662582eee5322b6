//! What a rebase does, commit by commit.

use vstd::prelude::*;

use crate::commit::CommitModel;
use crate::refs::RefNs;
use crate::replay::{RebasePlan, RebaseRun, Turn};
use crate::replay_state::{RebaseStep, StepModel};
use crate::staging::StoreModel;
use crate::table_merge::{Fault, MergedModel, TablesModel};

verus! {

/// The commit that a step names.
pub open spec fn replayed_commit(step: StepModel) -> Seq<u8> {
    match step {
        RebaseStep::Pick(c) => c,
        RebaseStep::Drop(c) => c,
        RebaseStep::Reword(c, _) => c,
        RebaseStep::Squash(c) => c,
        RebaseStep::Fixup(c) => c,
    }
}

/// The message after a step: that of a picked commit, the new one of a reworded commit,
/// that of a squashed commit behind those before it, and with a fixup the one before.
pub open spec fn message_after(step: StepModel, own: Seq<char>, before: Option<Seq<char>>) -> Option<
    Seq<char>,
> {
    match step {
        RebaseStep::Pick(_) => Some(own),
        RebaseStep::Reword(_, text) => Some(text),
        RebaseStep::Squash(_) => match before {
            Some(text) => Some(text + "\n\n"@ + own),
            None => Some(own),
        },
        RebaseStep::Fixup(_) => before,
        RebaseStep::Drop(_) => before,
    }
}

/// Does a commit stand on another with a message, and hold all these tables?
pub open spec fn stands_on(
    s: StoreModel,
    id: Seq<u8>,
    below: Seq<u8>,
    message: Seq<char>,
    tables: TablesModel,
) -> bool {
    &&& s.commits.dom().contains(id)
    &&& s.commits[id].parents == seq![below]
    &&& s.commits[id].message == message
    &&& forall|t: Seq<char>| #[trigger]
        tables.dom().contains(t) ==> {
            &&& crate::remote_wire::tables_at(s.snapshots, id).dom().contains(t)
            &&& crate::remote_wire::tables_at(s.snapshots, id)[t] == tables[t]
        }
}

/// Was a change merged without conflict: from what was before a commit, which is its parent
/// or the member of the group before it, to the commit, into what is replayed so far?
pub open spec fn change_merged(a: RebaseRun, step: StepModel, m: MergedModel) -> bool {
    let id = replayed_commit(step);
    let parents = a.s.commits[id].parents;
    let joins = step is Squash || step is Fixup;
    let before = if joins {
        a.group
    } else if parents.len() == 0 {
        None
    } else {
        Some(parents[0])
    };
    &&& a.s.commits.dom().contains(id)
    &&& crate::table_merge::merge_tables(
        crate::replay::snap_at(a.s, before),
        if joins {
            a.work
        } else {
            crate::replay::snap_at(a.s, Some(a.tip))
        },
        crate::replay::snap_at(a.s, Some(id)),
    ) == Ok::<MergedModel, Fault>(m)
    &&& m.conflicts.len() == 0
}

/// Does one state of a rebase follow from another by a step? A dropped commit changes
/// nothing. Any other is merged into what is replayed; where the next step joins it, that
/// waits, and else it becomes one commit on top of the replayed ones.
pub open spec fn follows(a: RebaseRun, b: RebaseRun, step: StepModel, joined: bool) -> bool {
    let id = replayed_commit(step);
    let message = message_after(step, a.s.commits[id].message, a.message);
    if step is Drop {
        b == a
    } else {
        &&& exists|m: MergedModel| #[trigger] change_merged(a, step, m) && b.work == m.work
        &&& if joined {
            b.s == a.s && b.tip == a.tip && b.message == message && b.group == Some(id)
        } else {
            &&& b.message is None && b.group is None
            &&& b.s.refs == a.s.refs && b.s.head == a.s.head
            &&& forall|k: Seq<u8>|
                k != b.tip ==> (#[trigger] b.s.commits.dom().contains(k)
                    <==> a.s.commits.dom().contains(k))
            &&& forall|k: Seq<u8>|
                k != b.tip && #[trigger] a.s.commits.dom().contains(k) ==> b.s.commits[k]
                    == a.s.commits[k]
            &&& crate::replay::snap_at(a.s, Some(a.tip)).dom().finite() ==> stands_on(
                b.s,
                b.tip,
                a.tip,
                match message {
                    Some(text) => text,
                    None => a.s.commits[id].message,
                },
                b.work,
            )
        }
    }
}

/// Does the step at a place join the one before it?
pub open spec fn joins_at(steps: Seq<StepModel>, i: int) -> bool {
    0 <= i < steps.len() && (steps[i] is Squash || steps[i] is Fixup)
}

proof fn lemma_put(s: StoreModel, tip: Seq<u8>, msg: Seq<char>, work: TablesModel, id: Seq<u8>)
    requires
        crate::replay::put_replay(s, seq![tip], msg, work).1 == Ok::<Seq<u8>, Fault>(id),
        work.dom().finite(),
    ensures
        ({
            let t = crate::replay::put_replay(s, seq![tip], msg, work).0;
            &&& t.refs == s.refs && t.head == s.head
            &&& t.commits.dom() == s.commits.dom().insert(id)
            &&& forall|k: Seq<u8>|
                k != id && #[trigger] s.commits.dom().contains(k) ==> t.commits[k] == s.commits[k]
            &&& crate::replay::snap_at(s, Some(tip)).dom().finite() ==> stands_on(
                t,
                id,
                tip,
                msg,
                work,
            )
        }),
{
    reveal(crate::replay::put_replay);
    let t = crate::replay::put_replay(s, seq![tip], msg, work).0;
    assert(seq![tip][0] == tip);
    let content = crate::replay::snap_at(s, Some(tip)).union_prefer_right(work);
    if crate::replay::snap_at(s, Some(tip)).dom().finite() {
        assert(content.dom() =~= crate::replay::snap_at(s, Some(tip)).dom().union(work.dom()));
        crate::names::law_ordered(content.dom());
        let list = crate::names::ordered(content.dom());
        assert(list.skip(0) =~= list);
        assert forall|x: Seq<char>| #[trigger] work.dom().contains(x) implies {
            &&& crate::remote_wire::tables_at(t.snapshots, id).dom().contains(x)
            &&& crate::remote_wire::tables_at(t.snapshots, id)[x] == work[x]
        } by {
            assert(list.to_set().contains(x));
            crate::staging::lemma_record_list(
                s.snapshots,
                s.snap_index,
                id,
                content,
                list,
                0,
                x,
                seq![],
            );
        }
    }
}

/// A step of a rebase that goes on does what the step says.
pub proof fn law_rebase_step_follows(a: RebaseRun, plan: RebasePlan, i: int, b: RebaseRun)
    requires
        0 <= i < plan.steps.len(),
        crate::replay::step_turn(a, plan, i) == Turn::On(b),
    ensures
        follows(a, b, plan.steps[i], joins_at(plan.steps, i + 1)),
{
    reveal(crate::replay::step_turn);
    reveal(crate::replay::group_turn);
    let step = plan.steps[i];
    let id = replayed_commit(step);
    if !(step is Drop) {
        let c = a.s.commits[id];
        let m = crate::replay::step_merge(a, step, c)->Ok_0;
        assert(change_merged(a, step, m));
        crate::table_merge::lemma_merged_finite(
            crate::replay::snap_at(a.s, crate::replay::step_base(a, step, c)),
            if crate::replay::folds(step) {
                a.work
            } else {
                crate::replay::snap_at(a.s, Some(a.tip))
            },
            crate::replay::snap_at(a.s, Some(id)),
        );
        if !joins_at(plan.steps, i + 1) {
            let text = match message_after(step, c.message, a.message) {
                Some(t) => t,
                None => c.message,
            };
            lemma_put(a.s, a.tip, text, m.work, b.tip);
        }
    }
}

/// A rebase that succeeds replays its steps one after another, each as `follows` says, from
/// the commit where it starts; the branch then stands at the last replayed commit, and the
/// working set is what was replayed. The states in between are given back.
pub proof fn law_rebase_replays_in_order(
    s: StoreModel,
    plan: RebasePlan,
    start: Seq<u8>,
    id: Seq<u8>,
) -> (runs: Seq<RebaseRun>)
    requires
        crate::replay::rebase_run(s, plan, start).1 == Ok::<Seq<u8>, Fault>(id),
    ensures
        runs.len() == plan.steps.len() + 1,
        runs[0].s == s && runs[0].tip == start && runs[0].message is None && runs[0].group is None,
        forall|k: int|
            0 <= k < plan.steps.len() ==> follows(
                #[trigger] runs[k],
                runs[k + 1],
                plan.steps[k],
                joins_at(plan.steps, k + 1),
            ),
        runs.last().tip == id,
        ({
            let t = crate::replay::rebase_run(s, plan, start).0;
            &&& t.refs == s.refs.insert((RefNs::Heads, s.head), id)
            &&& t.commits == runs.last().s.commits
            &&& t.snapshots == runs.last().s.snapshots
            &&& t.work == runs.last().work
        }),
{
    let first = RebaseRun { s, tip: start, work: Map::empty(), message: None, group: None };
    lemma_runs(first, plan, 0, id)
}

proof fn lemma_runs(a: RebaseRun, plan: RebasePlan, i: int, id: Seq<u8>) -> (runs: Seq<RebaseRun>)
    requires
        0 <= i <= plan.steps.len(),
        crate::replay::rebase_from(a, plan, i).1 == Ok::<Seq<u8>, Fault>(id),
    ensures
        runs.len() == plan.steps.len() - i + 1,
        runs[0] == a,
        forall|k: int|
            0 <= k < plan.steps.len() - i ==> follows(
                #[trigger] runs[k],
                runs[k + 1],
                plan.steps[i + k],
                joins_at(plan.steps, i + k + 1),
            ),
        runs.last().tip == id,
        ({
            let t = crate::replay::rebase_from(a, plan, i).0;
            &&& t.refs == a.s.refs.insert((RefNs::Heads, a.s.head), id)
            &&& t.commits == runs.last().s.commits
            &&& t.snapshots == runs.last().s.snapshots
            &&& t.work == runs.last().work
        }),
    decreases plan.steps.len() - i,
{
    if i >= plan.steps.len() {
        seq![a]
    } else {
        let b = match crate::replay::step_turn(a, plan, i) {
            Turn::On(next) => next,
            Turn::End(_, _) => a,
        };
        law_rebase_step_follows(a, plan, i, b);
        let rest = lemma_runs(b, plan, i + 1, id);
        let runs = seq![a] + rest;
        assert forall|k: int| 0 <= k < plan.steps.len() - i implies follows(
            #[trigger] runs[k],
            runs[k + 1],
            plan.steps[i + k],
            joins_at(plan.steps, i + k + 1),
        ) by {
            if k > 0 {
                assert(runs[k] == rest[k - 1] && runs[k + 1] == rest[k]);
                assert(plan.steps[i + k] == plan.steps[(i + 1) + (k - 1)]);
            } else {
                assert(runs[0] == a && runs[1] == rest[0]);
            }
        }
        assert(runs.last() == rest.last());
        assert(b.s.refs == a.s.refs && b.s.head == a.s.head);
        runs
    }
}

/// A rebase of the current branch starts at the commit that it goes onto and replays the
/// commits of the branch that this one does not have, as `law_rebase_replays_in_order` says.
pub proof fn law_rebase_goes_onto(s: StoreModel, text: Seq<char>, id: Seq<u8>) -> (plan: RebasePlan)
    requires
        crate::replay::rebased(s, text).1 == Ok::<Seq<u8>, Fault>(id),
    ensures
        ({
            let t = crate::replay::rebased(s, text).0;
            let onto = crate::staging::named(s, text)->Ok_0;
            let head = crate::staging::head_of(s)->0;
            let u = crate::replay::rebase_run(s, plan, onto).0;
            &&& crate::staging::named(s, text) is Ok
            &&& crate::staging::head_of(s) is Some
            &&& crate::replay::plan_of(s, head, onto) == Ok::<Seq<StepModel>, Fault>(plan.steps)
            &&& crate::replay::rebase_run(s, plan, onto).1 == Ok::<Seq<u8>, Fault>(id)
            &&& t.commits == u.commits && t.snapshots == u.snapshots && t.refs == u.refs
            &&& t.work == u.work && t.rebase_state is None
        }),
{
    let (onto, head, steps) = crate::replay::rebase_source(s, text)->Ok_0;
    RebasePlan { steps, onto, original_head: head, work_before: s.work }
}

/// The plan of a rebase is in the order of the history: of two commits of the branch that
/// it picks, the earlier comes first.
pub proof fn law_plan_is_oldest_first(
    s: StoreModel,
    head: Seq<u8>,
    onto: Seq<u8>,
    chain: Seq<Seq<u8>>,
    known: Seq<Seq<u8>>,
    steps: Seq<StepModel>,
    a: int,
    b: int,
)
    requires
        crate::commit::ancestors_of(s.commits, head) == Ok::<Seq<Seq<u8>>, Fault>(chain),
        crate::commit::ancestors_of(s.commits, onto) == Ok::<Seq<Seq<u8>>, Fault>(known),
        crate::replay::plan_of(s, head, onto) == Ok::<Seq<StepModel>, Fault>(steps),
        0 <= a < b < chain.len(),
        !known.contains(chain[a]) && !known.contains(chain[b]),
    ensures
        exists|i: int, j: int|
            0 <= i < j < steps.len() && #[trigger] steps[i] == StepModel::Pick(chain[b])
                && #[trigger] steps[j] == StepModel::Pick(chain[a]),
{
    let p = |c: Seq<u8>| !known.contains(c);
    let kept = chain.filter(p);
    let (i, j) = lemma_filter_order(chain, p, a, b);
    let n = kept.len();
    let back = kept.reverse();
    assert(back[n - 1 - j] == kept[j] && back[n - 1 - i] == kept[i]);
    assert(steps[n - 1 - j] == StepModel::Pick(chain[b]));
    assert(steps[n - 1 - i] == StepModel::Pick(chain[a]));
}

/// What is kept stays in order.
proof fn lemma_filter_order<A>(s: Seq<A>, p: spec_fn(A) -> bool, a: int, b: int) -> (at: (int, int))
    requires
        0 <= a < b < s.len(),
        p(s[a]) && p(s[b]),
    ensures
        0 <= at.0 < at.1 < s.filter(p).len(),
        s.filter(p)[at.0] == s[a],
        s.filter(p)[at.1] == s[b],
    decreases s.len(),
{
    reveal(Seq::filter);
    let d = s.drop_last();
    if b < d.len() {
        lemma_filter_order(d, p, a, b)
    } else {
        crate::creds::lemma_filter_distinct(d, p);
        assert(d[a] == s[a]);
        assert(d.contains(s[a]));
        let kept = d.filter(p);
        assert(kept.contains(s[a]));
        let i = choose|i: int| 0 <= i < kept.len() && kept[i] == s[a];
        assert(b == d.len() && s.filter(p) == kept.push(s[b]));
        (i, kept.len() as int)
    }
}

/// A rebase that a conflict stops waits with what it had: the steps behind the one that
/// conflicted, the commit replayed last, and the conflicts to resolve.
pub proof fn law_paused_rebase_keeps_its_place(
    a: RebaseRun,
    plan: RebasePlan,
    i: int,
    s: StoreModel,
    e: Fault,
)
    requires
        0 <= i < plan.steps.len(),
        crate::replay::step_turn(a, plan, i) == Turn::End(s, e),
        a.s.rebase_state is None,
        s.rebase_state is Some,
        a.s.conflicts.len() == 0,
    ensures
        ({
            let st = s.rebase_state->0;
            let id = replayed_commit(plan.steps[i]);
            &&& st.steps == plan.steps.skip(i + 1)
            &&& st.replay_head == a.tip
            &&& st.original_head == plan.original_head && st.onto == plan.onto
            &&& st.combined_message == a.message
            &&& st.conflicted_hash == crate::digest::hex_text(id)
            &&& s.commits == a.s.commits && s.snapshots == a.s.snapshots && s.refs == a.s.refs
            &&& s.conflicts.len() > 0
            &&& crate::replay::step_merge(a, plan.steps[i], a.s.commits[id]) matches Ok(m)
                && s.conflicts == m.conflicts && st.rebase_work == m.work
        }),
{
    reveal(crate::replay::step_turn);
    reveal(crate::replay::group_turn);
    reveal(crate::replay::put_replay);
    let step = plan.steps[i];
    let c: CommitModel = a.s.commits[replayed_commit(step)];
    let m = crate::replay::step_merge(a, step, c)->Ok_0;
    assert(s.conflicts =~= m.conflicts);
}

/// Going on after the conflict of the last step makes one commit of the resolved contents on
/// top of what was replayed, with the message of the group or of the commit, and moves the
/// branch to it.
pub proof fn law_continued_rebase_commits_the_resolution(s: StoreModel, id: Seq<u8>)
    requires
        crate::replay::rebase_continued(s).1 == Ok::<Seq<u8>, Fault>(id),
        s.rebase_state matches Some(st) && {
            &&& st.steps.len() == 0
            &&& st.conflicted_hash.len() > 0
            &&& st.rebase_work.dom().finite()
            &&& crate::replay::snap_at(s, Some(st.replay_head)).dom().finite()
        },
    ensures
        ({
            let t = crate::replay::rebase_continued(s).0;
            let st = s.rebase_state->0;
            &&& t.refs == s.refs.insert((RefNs::Heads, s.head), id)
            &&& t.rebase_state is None
            &&& stands_on(
                t,
                id,
                st.replay_head,
                match st.combined_message {
                    Some(m) => m,
                    None => crate::replay::message_for(s, st.conflicted_hash),
                },
                st.rebase_work,
            )
        }),
{
    let st = s.rebase_state->0;
    let u = StoreModel { work: st.rebase_work, rebase_state: None, ..s };
    let msg = match st.combined_message {
        Some(m) => m,
        None => crate::replay::message_for(s, st.conflicted_hash),
    };
    let made = crate::replay::put_replay(u, seq![st.replay_head], msg, st.rebase_work).1;
    if let Ok(new) = made {
        lemma_put(u, st.replay_head, msg, st.rebase_work, new);
    }
}

} // verus!
