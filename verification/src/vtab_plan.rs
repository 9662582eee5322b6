//! Query plans of the virtual tables.
//!
//! A plan says which constraints the table checks by itself and in which order
//! their values are handed over. Costs are whole numbers.

use vstd::prelude::*;

use crate::text::{cat3, decimal_text, join};

verus! {

/// Is a constraint an equality?
#[derive(Debug, Clone, Copy, PartialEq, Eq, Structural)]
pub enum VcOp {
    Eq,
    Other,
}

/// A constraint of a query on a column.
#[derive(Debug, Clone, Copy, PartialEq, Eq, Structural)]
pub struct VcConstraint {
    pub column: u32,
    pub op: VcOp,
    pub usable: bool,
}

/// A column that a query orders by.
#[derive(Debug, Clone, Copy, PartialEq, Eq, Structural)]
pub struct VcOrderBy {
    pub column: u32,
    pub desc: bool,
}

/// A plan.
#[derive(Debug, Clone, PartialEq, Eq)]
pub struct VcPlan {
    pub idx_num: i32,
    pub idx_str: Option<String>,
    /// Which constraints the table checks by itself.
    pub omit: Vec<bool>,
    /// The columns whose values are handed over, in order.
    pub argv: Vec<u32>,
    pub cost: u64,
    pub rows: u32,
    pub order_consumed: bool,
}

/// What a plan stands for.
pub struct PlanModel {
    pub idx_num: i32,
    pub idx_str: Option<Seq<char>>,
    pub omit: Seq<bool>,
    pub argv: Seq<u32>,
    pub cost: u64,
    pub rows: u32,
    pub order_consumed: bool,
}

impl DeepView for VcPlan {
    type V = PlanModel;

    open spec fn deep_view(&self) -> PlanModel {
        PlanModel {
            idx_num: self.idx_num,
            idx_str: self.idx_str.deep_view(),
            omit: self.omit@,
            argv: self.argv@,
            cost: self.cost,
            rows: self.rows,
            order_consumed: self.order_consumed,
        }
    }
}

/// What a plan that checks by a value costs.
pub const PROBE_COST: u64 = 10;

/// What a plan costs that should not be taken.
pub const REFUSED_COST: u64 = 1_000_000_000_000;

/// Can the table check this constraint?
pub open spec fn eligible(c: VcConstraint) -> bool {
    c.usable && c.op == VcOp::Eq
}

/// The first constraint from `i` on that is an equality on a column.
pub open spec fn probe_from(cs: Seq<VcConstraint>, column: u32, i: int) -> Option<int>
    decreases cs.len() - i,
{
    if i >= cs.len() {
        None
    } else if eligible(cs[i]) && cs[i].column == column {
        Some(i)
    } else {
        probe_from(cs, column, i + 1)
    }
}

/// No constraint is checked but the one at `i`.
pub open spec fn only_at(n: nat, i: int) -> Seq<bool> {
    Seq::new(n, |k: int| k == i)
}

/// A plan that checks nothing.
pub open spec fn full_scan(n: nat, cost: u64, rows: u32) -> PlanModel {
    PlanModel {
        idx_num: 0,
        idx_str: None,
        omit: only_at(n, -1),
        argv: seq![],
        cost,
        rows,
        order_consumed: false,
    }
}

/// A plan that checks one constraint.
pub open spec fn probe(
    n: nat,
    i: int,
    idx_num: i32,
    idx_str: Option<Seq<char>>,
    column: u32,
    rows: u32,
) -> PlanModel {
    PlanModel {
        idx_num,
        idx_str,
        omit: only_at(n, i),
        argv: seq![column],
        cost: PROBE_COST,
        rows,
        order_consumed: false,
    }
}

/// The cost of reading all of an estimated number of rows.
pub open spec fn scan_cost(estimate: u32) -> u64 {
    (1000 + estimate) as u64
}

/// The plan that checks an equality on one column where there is one.
pub open spec fn equality_plan(cs: Seq<VcConstraint>, column: u32, estimate: u32) -> PlanModel {
    match probe_from(cs, column, 0) {
        Some(i) => probe(cs.len(), i, 1, None, column, estimate),
        None => full_scan(cs.len(), scan_cost(estimate), estimate),
    }
}

/// The plan that checks an equality on one of two columns; the first column
/// comes first.
pub open spec fn two_way_plan(
    cs: Seq<VcConstraint>,
    first: u32,
    second: u32,
    estimate: u32,
) -> PlanModel {
    match probe_from(cs, first, 0) {
        Some(i) => probe(cs.len(), i, 1, None, first, estimate),
        None => match probe_from(cs, second, 0) {
            Some(i) => probe(cs.len(), i, 2, None, second, estimate),
            None => full_scan(cs.len(), scan_cost(estimate), estimate),
        },
    }
}

/// The plan of blame: a key of one column is looked up by column 0.
pub open spec fn blame_plan(cs: Seq<VcConstraint>, estimate: u32) -> PlanModel {
    match probe_from(cs, 0, 0) {
        Some(i) => probe(cs.len(), i, 1, Some("pk:0"@), 0, 1),
        None => full_scan(cs.len(), scan_cost(estimate), estimate),
    }
}

fn find_probe(cs: &[VcConstraint], column: u32) -> (r: Option<usize>)
    ensures
        match probe_from(cs@, column, 0) {
            Some(i) => r matches Some(k) && k == i && k < cs@.len(),
            None => r is None,
        },
{
    let mut i: usize = 0;
    while i < cs.len()
        invariant
            i <= cs@.len(),
            probe_from(cs@, column, i as int) == probe_from(cs@, column, 0),
        decreases cs.len() - i,
    {
        if cs[i].usable && cs[i].op == VcOp::Eq && cs[i].column == column {
            return Some(i);
        }
        i = i + 1;
    }
    None
}

fn marks(n: usize, at: Option<usize>) -> (r: Vec<bool>)
    ensures
        r@ == match at {
            Some(i) => only_at(n as nat, i as int),
            None => only_at(n as nat, -1),
        },
{
    let mut r: Vec<bool> = Vec::new();
    let mut k: usize = 0;
    while k < n
        invariant
            k <= n,
            r@.len() == k,
            forall|j: int|
                0 <= j < k ==> #[trigger] r@[j] == (at matches Some(i) && i == j),
        decreases n - k,
    {
        r.push(match at {
            Some(i) => i == k,
            None => false,
        });
        k = k + 1;
    }
    assert(r@ =~= match at {
        Some(i) => only_at(n as nat, i as int),
        None => only_at(n as nat, -1),
    });
    r
}

pub(crate) fn full(n: usize, cost: u64, rows: u32) -> (r: VcPlan)
    ensures
        r.deep_view() == full_scan(n as nat, cost, rows),
{
    let argv: Vec<u32> = Vec::new();
    assert(argv@ =~= seq![]);
    VcPlan {
        idx_num: 0,
        idx_str: None,
        omit: marks(n, None),
        argv,
        cost,
        rows,
        order_consumed: false,
    }
}

fn probed(
    n: usize,
    i: usize,
    idx_num: i32,
    idx_str: Option<String>,
    column: u32,
    rows: u32,
) -> (r: VcPlan)
    ensures
        r.deep_view() == probe(n as nat, i as int, idx_num, idx_str.deep_view(), column, rows),
{
    let mut argv: Vec<u32> = Vec::new();
    argv.push(column);
    assert(argv@ =~= seq![column]);
    VcPlan {
        idx_num,
        idx_str,
        omit: marks(n, Some(i)),
        argv,
        cost: PROBE_COST,
        rows,
        order_consumed: false,
    }
}

fn cost_of(estimate: u32) -> (r: u64)
    ensures
        r == scan_cost(estimate),
{
    1000 + estimate as u64
}

/// A plan that takes one column's equality as a probe.
pub fn plan_equality(constraints: &[VcConstraint], column: u32, estimate: u32) -> (r: VcPlan)
    ensures
        r.deep_view() == equality_plan(constraints@, column, estimate),
{
    match find_probe(constraints, column) {
        Some(i) => probed(constraints.len(), i, 1, None, column, estimate),
        None => full(constraints.len(), cost_of(estimate), estimate),
    }
}

fn plan_two_way(constraints: &[VcConstraint], first: u32, second: u32, estimate: u32) -> (r: VcPlan)
    ensures
        r.deep_view() == two_way_plan(constraints@, first, second, estimate),
{
    match find_probe(constraints, first) {
        Some(i) => probed(constraints.len(), i, 1, None, first, estimate),
        None => match find_probe(constraints, second) {
            Some(i) => probed(constraints.len(), i, 2, None, second, estimate),
            None => full(constraints.len(), cost_of(estimate), estimate),
        },
    }
}

/// The plan of the log: by hash, else by revision. An order is left to the query.
pub fn plan_log(constraints: &[VcConstraint], order_by: &[VcOrderBy], estimate: u32) -> (r: VcPlan)
    ensures
        r.deep_view() == two_way_plan(constraints@, 0, 5, estimate),
{
    plan_two_way(constraints, 0, 5, estimate)
}

/// The plan of the list of changes: by hash, else by table.
pub fn plan_diff(constraints: &[VcConstraint], estimate: u32) -> (r: VcPlan)
    ensures
        r.deep_view() == two_way_plan(constraints@, 0, 7, estimate),
{
    plan_two_way(constraints, 0, 7, estimate)
}

/// The plan of the list of views and triggers: by kind, else by name.
pub fn plan_schemas(constraints: &[VcConstraint], estimate: u32) -> (r: VcPlan)
    ensures
        r.deep_view() == two_way_plan(constraints@, 0, 1, estimate),
{
    plan_two_way(constraints, 0, 1, estimate)
}

/// The plan of blame.
pub fn plan_blame_probe(constraints: &[VcConstraint], estimate: u32) -> (r: VcPlan)
    ensures
        r.deep_view() == blame_plan(constraints@, estimate),
{
    match find_probe(constraints, 0) {
        Some(i) => probed(constraints.len(), i, 1, Some("pk:0".to_string()), 0, 1),
        None => full(constraints.len(), cost_of(estimate), estimate),
    }
}

// ---------------------------------------------------------------------------
// References as hidden columns
// ---------------------------------------------------------------------------

/// The columns of the marked ones among the first `n` constraints.
pub open spec fn marked_columns(cs: Seq<VcConstraint>, marked: Seq<bool>, n: int) -> Seq<u32>
    decreases n,
{
    if n <= 0 {
        seq![]
    } else if marked[n - 1] {
        marked_columns(cs, marked, n - 1).push(cs[n - 1].column)
    } else {
        marked_columns(cs, marked, n - 1)
    }
}

/// Column numbers as texts.
pub open spec fn column_texts(columns: Seq<u32>) -> Seq<Seq<char>> {
    columns.map_values(|c: u32| crate::text::decimal(c as nat))
}

/// The plan that takes the marked constraints and lists their columns behind a tag.
pub open spec fn tagged_plan(
    cs: Seq<VcConstraint>,
    marked: Seq<bool>,
    tag: Seq<char>,
    estimate: u32,
) -> PlanModel {
    let columns = marked_columns(cs, marked, cs.len() as int);
    if columns.len() == 0 {
        full_scan(cs.len(), REFUSED_COST, estimate)
    } else {
        PlanModel {
            idx_num: 1,
            idx_str: Some(tag + ":"@ + crate::text::joined(column_texts(columns), ","@)),
            omit: marked,
            argv: columns,
            cost: PROBE_COST,
            rows: estimate,
            order_consumed: false,
        }
    }
}

/// How many of the first `n` constraints come before the one at `i`: equalities on
/// a higher column, or on the same column and further left.
pub open spec fn ahead(cs: Seq<VcConstraint>, i: int, n: int) -> nat
    decreases n,
{
    if n <= 0 {
        0
    } else {
        let c = cs[n - 1];
        let before = eligible(c) && (c.column > cs[i].column || (c.column == cs[i].column && n - 1
            < i));
        ahead(cs, i, n - 1) + if before {
            1nat
        } else {
            0
        }
    }
}

/// Is the constraint among the first `hidden` equalities, highest column first?
pub open spec fn among_highest(cs: Seq<VcConstraint>, hidden: nat, i: int) -> bool {
    eligible(cs[i]) && ahead(cs, i, cs.len() as int) < hidden
}

/// The equalities on the highest columns.
pub open spec fn highest(cs: Seq<VcConstraint>, hidden: nat) -> Seq<bool> {
    Seq::new(cs.len(), |i: int| among_highest(cs, hidden, i))
}

/// The equalities on given columns.
pub open spec fn on_columns(cs: Seq<VcConstraint>, columns: Seq<u32>) -> Seq<bool> {
    Seq::new(cs.len(), |i: int| eligible(cs[i]) && columns.contains(cs[i].column))
}

fn count_ahead(cs: &[VcConstraint], i: usize) -> (r: usize)
    requires
        i < cs@.len(),
    ensures
        r == ahead(cs@, i as int, cs@.len() as int),
{
    let mut n: usize = 0;
    let mut count: usize = 0;
    while n < cs.len()
        invariant
            n <= cs@.len(),
            i < cs@.len(),
            count <= n,
            count == ahead(cs@, i as int, n as int),
        decreases cs.len() - n,
    {
        if cs[n].usable && cs[n].op == VcOp::Eq && (cs[n].column > cs[i].column || (cs[n].column
            == cs[i].column && n < i)) {
            count = count + 1;
        }
        n = n + 1;
    }
    count
}

fn tagged(cs: &[VcConstraint], marked: Vec<bool>, tag: &str, estimate: u32) -> (r: VcPlan)
    requires
        marked@.len() == cs@.len(),
    ensures
        r.deep_view() == tagged_plan(cs@, marked@, tag@, estimate),
{
    let mut argv: Vec<u32> = Vec::new();
    let mut texts: Vec<String> = Vec::new();
    let mut i: usize = 0;
    assert(argv@ =~= seq![]);
    assert(texts.deep_view() =~= column_texts(argv@));
    while i < cs.len()
        invariant
            i <= cs@.len(),
            marked@.len() == cs@.len(),
            argv@ == marked_columns(cs@, marked@, i as int),
            texts.deep_view() == column_texts(argv@),
        decreases cs.len() - i,
    {
        if marked[i] {
            let ghost before = texts.deep_view();
            let ghost columns = argv@;
            argv.push(cs[i].column);
            texts.push(decimal_text(cs[i].column as u64));
            proof {
                let t = crate::text::decimal(cs@[i as int].column as nat);
                assert(texts.deep_view() =~= before.push(t));
                assert(column_texts(argv@) =~= column_texts(columns).push(t));
            }
        }
        i = i + 1;
    }
    if argv.len() == 0 {
        return full(cs.len(), REFUSED_COST, estimate);
    }
    let list = join(&texts, ",");
    VcPlan {
        idx_num: 1,
        idx_str: Some(cat3(tag, ":", list.as_str())),
        omit: marked,
        argv,
        cost: PROBE_COST,
        rows: estimate,
        order_consumed: false,
    }
}

/// The plan of a table of one user table. Its references are its last columns,
/// whose numbers are not known here: equalities on the highest columns are taken.
pub fn plan_per_table_refs(
    constraints: &[VcConstraint],
    hidden: usize,
    tag: &str,
    estimate: u32,
) -> (r: VcPlan)
    ensures
        r.deep_view() == tagged_plan(
            constraints@,
            highest(constraints@, hidden as nat),
            tag@,
            estimate,
        ),
{
    let mut marked: Vec<bool> = Vec::new();
    let mut i: usize = 0;
    while i < constraints.len()
        invariant
            i <= constraints@.len(),
            marked@.len() == i,
            forall|j: int|
                0 <= j < i ==> #[trigger] marked@[j] == among_highest(constraints@, hidden as nat, j),
        decreases constraints.len() - i,
    {
        let c = constraints[i];
        marked.push(c.usable && c.op == VcOp::Eq && count_ahead(constraints, i) < hidden);
        i = i + 1;
    }
    assert(marked@ =~= highest(constraints@, hidden as nat));
    tagged(constraints, marked, tag, estimate)
}

/// The plan of a table whose references are known columns.
pub fn plan_refs(constraints: &[VcConstraint], columns: &[u32], estimate: u32) -> (r: VcPlan)
    ensures
        r.deep_view() == tagged_plan(
            constraints@,
            on_columns(constraints@, columns@),
            "refs"@,
            estimate,
        ),
{
    let mut marked: Vec<bool> = Vec::new();
    let mut i: usize = 0;
    while i < constraints.len()
        invariant
            i <= constraints@.len(),
            marked@.len() == i,
            forall|j: int|
                0 <= j < i ==> #[trigger] marked@[j] == (eligible(constraints@[j])
                    && columns@.contains(constraints@[j].column)),
        decreases constraints.len() - i,
    {
        let c = constraints[i];
        marked.push(c.usable && c.op == VcOp::Eq && has_column(columns, c.column));
        i = i + 1;
    }
    assert(marked@ =~= on_columns(constraints@, columns@));
    tagged(constraints, marked, "refs", estimate)
}

fn has_column(columns: &[u32], c: u32) -> (r: bool)
    ensures
        r == columns@.contains(c),
{
    let mut i: usize = 0;
    while i < columns.len()
        invariant
            i <= columns@.len(),
            forall|j: int| 0 <= j < i ==> columns@[j] != c,
        decreases columns.len() - i,
    {
        if columns[i] == c {
            return true;
        }
        i = i + 1;
    }
    false
}

// ---------------------------------------------------------------------------
// What the engine is told
// ---------------------------------------------------------------------------

/// How one constraint is used.
#[derive(Debug, Clone, Copy, PartialEq, Eq, Structural)]
pub struct ConstraintUsage {
    /// The place of its value among those handed over, from 1 on.
    pub argv_index: Option<u32>,
    pub omit: bool,
}

/// What the engine is told of a plan.
#[derive(Debug, Clone, PartialEq, Eq)]
pub struct IndexInfo {
    pub idx_num: i32,
    pub idx_str: Option<String>,
    pub order_by_consumed: bool,
    pub estimated_cost: u64,
    pub estimated_rows: u32,
    pub constraint_usages: Vec<ConstraintUsage>,
}

/// What the engine's view of a plan stands for.
pub struct InfoModel {
    pub idx_num: i32,
    pub idx_str: Option<Seq<char>>,
    pub order_by_consumed: bool,
    pub estimated_cost: u64,
    pub estimated_rows: u32,
    pub constraint_usages: Seq<ConstraintUsage>,
}

impl DeepView for IndexInfo {
    type V = InfoModel;

    open spec fn deep_view(&self) -> InfoModel {
        InfoModel {
            idx_num: self.idx_num,
            idx_str: self.idx_str.deep_view(),
            order_by_consumed: self.order_by_consumed,
            estimated_cost: self.estimated_cost,
            estimated_rows: self.estimated_rows,
            constraint_usages: self.constraint_usages@,
        }
    }
}

/// How many of the first `n` are marked.
pub open spec fn marked_before(omit: Seq<bool>, n: int) -> nat
    decreases n,
{
    if n <= 0 {
        0
    } else {
        marked_before(omit, n - 1) + if omit[n - 1] {
            1nat
        } else {
            0
        }
    }
}

/// How the constraint at `i` is used.
pub open spec fn usage_at(omit: Seq<bool>, i: int) -> ConstraintUsage {
    if omit[i] {
        ConstraintUsage { argv_index: Some((marked_before(omit, i) + 1) as u32), omit: true }
    } else {
        ConstraintUsage { argv_index: None, omit: false }
    }
}

/// What the engine is told of a plan.
pub open spec fn info_of(plan: PlanModel) -> InfoModel {
    InfoModel {
        idx_num: plan.idx_num,
        idx_str: plan.idx_str,
        order_by_consumed: plan.order_consumed,
        estimated_cost: plan.cost,
        estimated_rows: plan.rows,
        constraint_usages: Seq::new(plan.omit.len(), |i: int| usage_at(plan.omit, i)),
    }
}

/// What the engine is told of a plan. Values are numbered from 1 on.
pub fn index_info(plan: &VcPlan) -> (r: IndexInfo)
    requires
        plan.omit@.len() < u32::MAX,
    ensures
        r.deep_view() == info_of(plan.deep_view()),
{
    let mut next: u32 = 1;
    let mut usages: Vec<ConstraintUsage> = Vec::new();
    let mut i: usize = 0;
    let ghost omit = plan.omit@;
    while i < plan.omit.len()
        invariant
            i <= omit.len(),
            omit == plan.omit@,
            omit.len() < u32::MAX,
            next == marked_before(omit, i as int) + 1,
            next <= i + 1,
            usages@.len() == i,
            forall|j: int| 0 <= j < i ==> #[trigger] usages@[j] == usage_at(omit, j),
        decreases omit.len() - i,
    {
        if plan.omit[i] {
            usages.push(ConstraintUsage { argv_index: Some(next), omit: true });
            next = next + 1;
        } else {
            usages.push(ConstraintUsage { argv_index: None, omit: false });
        }
        i = i + 1;
    }
    assert(usages@ =~= info_of(plan.deep_view()).constraint_usages);
    IndexInfo {
        idx_num: plan.idx_num,
        idx_str: plan.idx_str.clone(),
        order_by_consumed: plan.order_consumed,
        estimated_cost: plan.cost,
        estimated_rows: plan.rows,
        constraint_usages: usages,
    }
}

// ---------------------------------------------------------------------------
// Laws
// ---------------------------------------------------------------------------

proof fn lemma_marked_columns(cs: Seq<VcConstraint>, marked: Seq<bool>, n: int, i: int)
    requires
        0 <= i < n <= cs.len(),
        marked.len() == cs.len(),
        marked[i],
    ensures
        marked_before(marked, i) < marked_columns(cs, marked, n).len(),
        marked_columns(cs, marked, n)[marked_before(marked, i) as int] == cs[i].column,
        marked_columns(cs, marked, n).len() == marked_before(marked, n),
    decreases n,
{
    lemma_columns_len(cs, marked, n);
    lemma_columns_len(cs, marked, n - 1);
    if i < n - 1 {
        lemma_marked_columns(cs, marked, n - 1, i);
    }
}

proof fn lemma_columns_len(cs: Seq<VcConstraint>, marked: Seq<bool>, n: int)
    ensures
        marked_columns(cs, marked, n).len() == marked_before(marked, n),
    decreases n,
{
    if n > 0 {
        lemma_columns_len(cs, marked, n - 1);
    }
}

/// The value that the engine hands over at a constraint's place is the value of
/// the column that the plan lists there.
pub proof fn law_values_meet_their_columns(
    cs: Seq<VcConstraint>,
    marked: Seq<bool>,
    tag: Seq<char>,
    estimate: u32,
    i: int,
)
    requires
        0 <= i < cs.len() < u32::MAX,
        marked.len() == cs.len(),
    ensures
        ({
            let plan = tagged_plan(cs, marked, tag, estimate);
            info_of(plan).constraint_usages[i].argv_index matches Some(k) ==> 1 <= k
                <= plan.argv.len() && plan.argv[k - 1] == cs[i].column
        }),
{
    if marked[i] {
        lemma_marked_columns(cs, marked, cs.len() as int, i);
        lemma_before_bound(marked, cs.len() as int);
    }
}

proof fn lemma_before_bound(marked: Seq<bool>, n: int)
    ensures
        marked_before(marked, n) <= if n <= 0 {
            0
        } else {
            n
        },
    decreases n,
{
    if n > 0 {
        lemma_before_bound(marked, n - 1);
    }
}

/// A plan for one column takes the first usable equality on it: that one alone is answered by
/// the table and handed over; without one the table is read whole and nothing is handed over.
pub proof fn law_plan_takes_the_first_equality(cs: Seq<VcConstraint>, column: u32, estimate: u32)
    ensures
        ({
            let plan = equality_plan(cs, column, estimate);
            &&& plan.omit.len() == cs.len()
            &&& (exists|i: int|
                0 <= i < cs.len() && (#[trigger] cs[i]).usable && cs[i].op == VcOp::Eq
                    && cs[i].column == column) ==> {
                &&& plan.idx_num == 1 && plan.argv == seq![column]
                &&& exists|i: int|
                    {
                        &&& 0 <= i < cs.len() && (#[trigger] cs[i]).usable && cs[i].op == VcOp::Eq
                            && cs[i].column == column
                        &&& forall|j: int| 0 <= j < cs.len() ==> #[trigger] plan.omit[j] == (j == i)
                        &&& forall|j: int|
                            0 <= j < i ==> !((#[trigger] cs[j]).usable && cs[j].op == VcOp::Eq
                                && cs[j].column == column)
                    }
            }
            &&& !(exists|i: int|
                0 <= i < cs.len() && (#[trigger] cs[i]).usable && cs[i].op == VcOp::Eq
                    && cs[i].column == column) ==> {
                &&& plan.idx_num == 0 && plan.argv.len() == 0
                &&& forall|j: int| 0 <= j < cs.len() ==> !#[trigger] plan.omit[j]
            }
        }),
{
    lemma_probe(cs, column, 0);
    if let Some(i) = probe_from(cs, column, 0) {
        assert(cs[i].usable && cs[i].op == VcOp::Eq && cs[i].column == column);
        let plan = equality_plan(cs, column, estimate);
        assert(forall|j: int| 0 <= j < cs.len() ==> #[trigger] plan.omit[j] == (j == i));
    }
}

proof fn lemma_probe(cs: Seq<VcConstraint>, column: u32, from: int)
    requires
        0 <= from,
    ensures
        match probe_from(cs, column, from) {
            Some(i) => from <= i < cs.len() && eligible(cs[i]) && cs[i].column == column && forall|
                j: int,
            |
                from <= j < i ==> !((#[trigger] cs[j]).usable && cs[j].op == VcOp::Eq
                    && cs[j].column == column),
            None => forall|j: int|
                from <= j < cs.len() ==> !((#[trigger] cs[j]).usable && cs[j].op == VcOp::Eq
                    && cs[j].column == column),
        },
    decreases cs.len() - from,
{
    if from < cs.len() && !(eligible(cs[from]) && cs[from].column == column) {
        lemma_probe(cs, column, from + 1);
    }
}

/// A plan by references takes every usable equality on one of their columns and no other,
/// and tells their columns in the order in which their values are handed over.
pub proof fn law_plan_takes_the_references(
    cs: Seq<VcConstraint>,
    columns: Seq<u32>,
    tag: Seq<char>,
    estimate: u32,
    i: int,
)
    requires
        0 <= i < cs.len(),
    ensures
        ({
            let plan = tagged_plan(cs, on_columns(cs, columns), tag, estimate);
            let wanted = cs[i].usable && cs[i].op == VcOp::Eq && columns.contains(cs[i].column);
            &&& plan.omit[i] == wanted
            &&& wanted ==> plan.idx_num == 1 && plan.argv.contains(cs[i].column)
            &&& plan.argv.len() > 0 ==> plan.idx_str == Some(
                tag + ":"@ + crate::text::joined(
                    plan.argv.map_values(|c: u32| crate::text::decimal(c as nat)),
                    ","@,
                ),
            )
            &&& plan.argv.len() == 0 ==> plan.idx_num == 0
        }),
{
    let marked = on_columns(cs, columns);
    let n = cs.len() as int;
    if marked[i] {
        lemma_marked_contains(cs, marked, n, i);
    }
    if !marked[i] && marked_columns(cs, marked, n).len() == 0 {
        assert(tagged_plan(cs, marked, tag, estimate).omit[i] == false);
    }
}

proof fn lemma_marked_contains(cs: Seq<VcConstraint>, marked: Seq<bool>, n: int, i: int)
    requires
        0 <= i < n <= cs.len(),
        marked.len() == cs.len(),
        marked[i],
    ensures
        marked_columns(cs, marked, n).contains(cs[i].column),
    decreases n,
{
    let all = marked_columns(cs, marked, n);
    let before = marked_columns(cs, marked, n - 1);
    if i == n - 1 {
        assert(all[before.len() as int] == cs[i].column);
    } else {
        lemma_marked_contains(cs, marked, n - 1, i);
        let k = choose|k: int| 0 <= k < before.len() && before[k] == cs[i].column;
        assert(all[k] == cs[i].column);
    }
}

} // verus!
