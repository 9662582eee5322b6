//! The virtual tables over a repository: what they declare, how the arguments of
//! a scan are read, the rows that they give, and the cursor over those rows.

use vstd::prelude::*;

use crate::conflicts::{ConflictEntry, ConflictKind, EntryModel};
use crate::constraints::{Violation, ViolationModel};
use crate::digest::hex_of;
use crate::staging::{StoreModel, VcStore};
use crate::text::{
    cat3, chars_of, cut_once, decimal_int_text, matches_at, read_unsigned, str_eq, string_of, Dup,
};
use crate::values::{CellModel, RowModel, VcRow, VcValue};
use crate::vtab_plan::{
    index_info, info_of, plan_blame_probe, plan_diff, plan_equality, plan_log,
    plan_per_table_refs, plan_refs, plan_schemas, IndexInfo, PlanModel, VcConstraint, VcOrderBy,
    VcPlan,
};

verus! {

broadcast use crate::text::lemma_bytes_deep_view;

// ---------------------------------------------------------------------------
// Texts
// ---------------------------------------------------------------------------

/// The pieces of a text between occurrences of a character.
pub open spec fn pieces(s: Seq<char>, c: char) -> Seq<Seq<char>>
    decreases s.len(),
{
    if s.len() == 0 {
        seq![seq![]]
    } else {
        let before = pieces(s.drop_last(), c);
        if s.last() == c {
            before.push(seq![])
        } else {
            before.drop_last().push(before.last().push(s.last()))
        }
    }
}

fn split_at(s: &str, c: char) -> (r: Vec<String>)
    ensures
        r.deep_view() == pieces(s@, c),
{
    let v = chars_of(s);
    let mut done: Vec<String> = Vec::new();
    let mut last = String::new();
    let mut i: usize = 0;
    assert(v@.take(0) =~= seq![]);
    assert(last@ =~= seq![]);
    assert(done.deep_view().push(last@) =~= pieces(v@.take(0), c));
    while i < v.len()
        invariant
            i <= v@.len(),
            done.deep_view().push(last@) == pieces(v@.take(i as int), c),
        decreases v.len() - i,
    {
        let ghost before = done.deep_view();
        let ghost tail = last@;
        let ghost all = before.push(tail);
        proof {
            assert(v@.take(i + 1).drop_last() =~= v@.take(i as int));
            assert(all.drop_last() =~= before);
            assert(all.last() == tail);
        }
        if v[i] == c {
            done.push(last);
            last = String::new();
            assert(done.deep_view() =~= all);
            assert(last@ =~= seq![]);
        } else {
            last.push(v[i]);
        }
        i = i + 1;
    }
    assert(v@.take(i as int) =~= s@);
    let ghost before = done.deep_view();
    let ghost tail = last@;
    done.push(last);
    assert(done.deep_view() =~= before.push(tail));
    done
}

/// A text with each double quote written twice.
pub open spec fn doubled(s: Seq<char>) -> Seq<char>
    decreases s.len(),
{
    if s.len() == 0 {
        seq![]
    } else if s.last() == '"' {
        doubled(s.drop_last()).push('"').push('"')
    } else {
        doubled(s.drop_last()).push(s.last())
    }
}

/// A name as a quoted SQL identifier.
pub open spec fn quoted(s: Seq<char>) -> Seq<char> {
    "\""@ + doubled(s) + "\""@
}

/// Quote a name for use as an SQL identifier.
pub fn quote_ident(name: &str) -> (r: String)
    ensures
        r@ == quoted(name@),
{
    let v = chars_of(name);
    let mut body = String::new();
    let mut i: usize = 0;
    assert(v@.take(0) =~= seq![]);
    assert(body@ =~= seq![]);
    while i < v.len()
        invariant
            i <= v@.len(),
            body@ == doubled(v@.take(i as int)),
        decreases v.len() - i,
    {
        assert(v@.take(i + 1).drop_last() =~= v@.take(i as int));
        if v[i] == '"' {
            body.push('"');
        }
        body.push(v[i]);
        i = i + 1;
    }
    assert(v@.take(i as int) =~= name@);
    cat3("\"", body.as_str(), "\"")
}

/// The text behind a prefix.
pub open spec fn behind(s: Seq<char>, prefix: Seq<char>) -> Option<Seq<char>> {
    if crate::text::stands_at(s, prefix, 0) {
        Some(s.skip(prefix.len() as int))
    } else {
        None
    }
}

fn strip(s: &str, prefix: &str) -> (r: Option<String>)
    ensures
        match behind(s@, prefix@) {
            Some(t) => r matches Some(x) && x@ == t,
            None => r is None,
        },
{
    let v = chars_of(s);
    let p = chars_of(prefix);
    if v.len() < p.len() || !matches_at(&v, &p, 0) {
        return None;
    }
    let t = string_of(&v, p.len(), v.len());
    assert(t@ =~= s@.skip(p@.len() as int));
    Some(t)
}

// ---------------------------------------------------------------------------
// Kinds and schemas
// ---------------------------------------------------------------------------

/// Which virtual table a cursor scans.
#[derive(Debug, Clone, Copy, PartialEq, Eq, Structural)]
pub enum VcKind {
    Log,
    Schemas,
    Diff,
    DiffStat,
    DiffSummary,
    SchemaDiff,
    Patch,
    MergeStatus,
    Conflicts,
    Violations,
    Branches,
    Tags,
    Remotes,
    RemoteBranches,
    HistoryT,
    AtT,
    BlameT,
    DiffT,
    ConflictsT,
    ViolationsT,
}

pub open spec fn merge_status_schema_text() -> Seq<char> {
    "CREATE TABLE dolt_merge_status (table_name TEXT, rows_merged INTEGER, rows_conflicted INTEGER, schema_conflict INTEGER, state TEXT)"@
}

/// The schema of the state of a merge.
pub fn merge_status_schema() -> (r: String)
    ensures
        r@ == merge_status_schema_text(),
{
    "CREATE TABLE dolt_merge_status (table_name TEXT, rows_merged INTEGER, rows_conflicted INTEGER, schema_conflict INTEGER, state TEXT)".to_owned()
}

pub open spec fn conflicts_schema_text() -> Seq<char> {
    "CREATE TABLE dolt_conflicts (table_name TEXT, pk_values TEXT, base_values TEXT, our_values TEXT, their_values TEXT, conflict_type TEXT)"@
}

/// The schema of the conflicts of all tables, whose rows are given as text.
pub fn conflicts_schema() -> (r: String)
    ensures
        r@ == conflicts_schema_text(),
{
    "CREATE TABLE dolt_conflicts (table_name TEXT, pk_values TEXT, base_values TEXT, our_values TEXT, their_values TEXT, conflict_type TEXT)".to_owned()
}

pub open spec fn violations_schema_text() -> Seq<char> {
    "CREATE TABLE dolt_constraint_violations (table_name TEXT, violation_type TEXT, pk_cols TEXT, details TEXT)"@
}

/// The schema of the constraint violations. Those of one table have the same one.
pub fn fixed_violations_schema() -> (r: String)
    ensures
        r@ == violations_schema_text(),
{
    "CREATE TABLE dolt_constraint_violations (table_name TEXT, violation_type TEXT, pk_cols TEXT, details TEXT)".to_owned()
}

/// Text columns, each with a prefix and a comma behind.
pub open spec fn text_columns(columns: Seq<Seq<char>>, prefix: Seq<char>) -> Seq<char>
    decreases columns.len(),
{
    if columns.len() == 0 {
        seq![]
    } else {
        text_columns(columns.drop_last(), prefix) + "\""@ + prefix + columns.last() + "\" TEXT, "@
    }
}

fn declare(columns: &Vec<String>, prefix: &str) -> (r: String)
    ensures
        r@ == text_columns(columns.deep_view(), prefix@),
{
    let ghost c = columns.deep_view();
    let mut r = String::new();
    let mut i: usize = 0;
    assert(c.take(0) =~= seq![]);
    assert(r@ =~= seq![]);
    while i < columns.len()
        invariant
            i <= columns@.len(),
            c == columns.deep_view(),
            r@ == text_columns(c.take(i as int), prefix@),
        decreases columns.len() - i,
    {
        proof {
            assert(c[i as int] == columns@[i as int]@);
            assert(c.take(i + 1).drop_last() =~= c.take(i as int));
        }
        r.append("\"");
        r.append(prefix);
        r.append(columns[i].as_str());
        r.append("\" TEXT, ");
        i = i + 1;
    }
    assert(c.take(i as int) =~= c);
    r
}

/// The schema of the conflicts of one table: its key, the three rows, the kind.
pub open spec fn conflicts_table_text(table: Seq<char>, columns: Seq<Seq<char>>) -> Seq<char> {
    "CREATE TABLE dolt_conflicts_"@ + table + " ("@ + text_columns(columns, ""@) + text_columns(
        columns,
        "base_"@,
    ) + text_columns(columns, "our_"@) + text_columns(columns, "their_"@) + "conflict_type TEXT)"@
}

/// The schema of the conflicts of one table.
pub fn conflicts_table_schema(table: &str, columns: &Vec<String>) -> (r: String)
    ensures
        r@ == conflicts_table_text(table@, columns.deep_view()),
{
    let mut r = cat3("CREATE TABLE dolt_conflicts_", table, " (");
    r.append(declare(columns, "").as_str());
    r.append(declare(columns, "base_").as_str());
    r.append(declare(columns, "our_").as_str());
    r.append(declare(columns, "their_").as_str());
    r.append("conflict_type TEXT)");
    r
}

/// The user table that the name of a virtual table speaks of.
pub open spec fn table_in(name: Seq<char>) -> Seq<char> {
    if let Some(t) = behind(name, "dolt_constraint_violations_"@) {
        t
    } else if let Some(t) = behind(name, "dolt_history_"@) {
        t
    } else if let Some(t) = behind(name, "dolt_at_"@) {
        t
    } else if let Some(t) = behind(name, "dolt_blame_"@) {
        t
    } else if let Some(t) = behind(name, "dolt_diff_"@) {
        t
    } else if let Some(t) = behind(name, "dolt_conflicts_"@) {
        t
    } else {
        name
    }
}

/// The user table that a virtual table was made for.
pub fn module_table(name: &str) -> (r: String)
    ensures
        r@ == table_in(name@),
{
    if let Some(t) = strip(name, "dolt_constraint_violations_") {
        return t;
    }
    if let Some(t) = strip(name, "dolt_history_") {
        return t;
    }
    if let Some(t) = strip(name, "dolt_at_") {
        return t;
    }
    if let Some(t) = strip(name, "dolt_blame_") {
        return t;
    }
    if let Some(t) = strip(name, "dolt_diff_") {
        return t;
    }
    if let Some(t) = strip(name, "dolt_conflicts_") {
        return t;
    }
    name.to_owned()
}

// ---------------------------------------------------------------------------
// The arguments of a scan
// ---------------------------------------------------------------------------

/// The values handed to a scan, as texts where they have one.
pub type ScanArgs = Vec<Option<String>>;

/// What the values of a scan stand for.
pub type ArgTexts = Seq<Option<Seq<char>>>;

/// The text of a value, where there is one.
pub open spec fn arg_at(args: ArgTexts, i: int) -> Option<Seq<char>> {
    if 0 <= i < args.len() {
        args[i]
    } else {
        None
    }
}

pub fn arg_text(args: &ScanArgs, i: usize) -> (r: Option<String>)
    ensures
        r.deep_view() == arg_at(args.deep_view(), i as int),
{
    if i < args.len() {
        assert(args.deep_view()[i as int] == args@[i as int].deep_view());
        args[i].dup()
    } else {
        None
    }
}

/// The columns that a tag such as `refs:12,13` lists, as texts.
pub open spec fn tag_columns(tag: Seq<char>) -> Seq<Seq<char>> {
    let parts = pieces(tag, ':');
    if parts.len() < 2 {
        seq![]
    } else {
        pieces(parts[1], ',').filter(|c: Seq<char>| c.len() > 0)
    }
}

fn listed(tag: &str) -> (r: Vec<String>)
    ensures
        r.deep_view() == tag_columns(tag@),
{
    let parts = split_at(tag, ':');
    assert(parts.deep_view().len() == parts@.len());
    let mut out: Vec<String> = Vec::new();
    if parts.len() < 2 {
        assert(out.deep_view() =~= seq![]);
        return out;
    }
    assert(parts.deep_view()[1] == parts@[1]@);
    let cols = split_at(parts[1].as_str(), ',');
    let ghost all = cols.deep_view();
    let ghost p = |c: Seq<char>| c.len() > 0;
    let mut i: usize = 0;
    proof {
        reveal(Seq::filter);
        assert(all.take(0) =~= seq![]);
        assert(out.deep_view() =~= all.take(0).filter(p));
    }
    while i < cols.len()
        invariant
            i <= cols@.len(),
            all == cols.deep_view(),
            p == (|c: Seq<char>| c.len() > 0),
            out.deep_view() == all.take(i as int).filter(p),
        decreases cols.len() - i,
    {
        let ghost before = out.deep_view();
        proof {
            reveal(Seq::filter);
            assert(all[i as int] == cols@[i as int]@);
            assert(all.take(i + 1).drop_last() =~= all.take(i as int));
            assert(all.take(i + 1).last() == all[i as int]);
        }
        let empty = str_eq(cols[i].as_str(), "");
        proof {
            reveal_strlit("");
            assert(empty == (cols@[i as int]@.len() == 0)) by {
                if cols@[i as int]@.len() == 0 {
                    assert(cols@[i as int]@ =~= ""@);
                }
            }
        }
        if !empty {
            out.push(cols[i].clone());
            assert(out.deep_view() =~= before.push(all[i as int]));
        }
        i = i + 1;
    }
    assert(all.take(i as int) =~= all);
    out
}

/// The texts among values.
pub open spec fn texts_in(args: ArgTexts) -> Seq<Seq<char>>
    decreases args.len(),
{
    if args.len() == 0 {
        seq![]
    } else {
        match args.last() {
            Some(t) => texts_in(args.drop_last()).push(t),
            None => texts_in(args.drop_last()),
        }
    }
}

/// The references handed to a scan: as many values as the tag lists columns.
pub open spec fn bound_refs(tag: Seq<char>, args: ArgTexts) -> Seq<Seq<char>> {
    let n = tag_columns(tag).len();
    texts_in(
        if n < args.len() {
            args.take(n as int)
        } else {
            args
        },
    )
}

/// The values that belong to the columns of a tag. They come in the order in which
/// the tag lists the columns.
pub fn bind_ref_args(idx_str: &str, args: &ScanArgs) -> (r: Vec<String>)
    ensures
        r.deep_view() == bound_refs(idx_str@, args.deep_view()),
{
    let cols = listed(idx_str);
    assert(cols.deep_view().len() == cols@.len());
    let n: usize = if cols.len() < args.len() {
        cols.len()
    } else {
        args.len()
    };
    let ghost a = args.deep_view();
    assert(a.len() == args@.len());
    let mut out: Vec<String> = Vec::new();
    let mut i: usize = 0;
    assert(a.take(0) =~= seq![]);
    assert(out.deep_view() =~= seq![]);
    while i < n
        invariant
            i <= n <= args@.len(),
            a == args.deep_view(),
            out.deep_view() == texts_in(a.take(i as int)),
        decreases n - i,
    {
        let ghost before = out.deep_view();
        proof {
            assert(a[i as int] == args@[i as int].deep_view());
            assert(a.take(i + 1).drop_last() =~= a.take(i as int));
        }
        if let Some(t) = &args[i] {
            out.push(t.clone());
            assert(out.deep_view() =~= before.push(t@));
        }
        i = i + 1;
    }
    assert(a.take(a.len() as int) =~= a);
    out
}

/// The column numbers in a list of texts; other texts are passed over.
pub open spec fn numbers_in(texts: Seq<Seq<char>>) -> Seq<u32>
    decreases texts.len(),
{
    if texts.len() == 0 {
        seq![]
    } else {
        match crate::text::parse_unsigned(texts.last(), u32::MAX as nat) {
            Some(n) => numbers_in(texts.drop_last()).push(n as u32),
            None => numbers_in(texts.drop_last()),
        }
    }
}

/// The first `n` values with their columns.
pub open spec fn pairs_in(args: ArgTexts, columns: Seq<u32>, n: int) -> Seq<(u32, Seq<char>)>
    decreases n,
{
    if n <= 0 {
        seq![]
    } else {
        match args[n - 1] {
            Some(t) => pairs_in(args, columns, n - 1).push((columns[n - 1], t)),
            None => pairs_in(args, columns, n - 1),
        }
    }
}

/// The references handed to a scan with the columns that the tag lists.
pub open spec fn bound_columns(tag: Seq<char>, args: ArgTexts) -> Seq<(u32, Seq<char>)> {
    let columns = numbers_in(tag_columns(tag));
    pairs_in(
        args,
        columns,
        if columns.len() < args.len() {
            columns.len() as int
        } else {
            args.len() as int
        },
    )
}

/// What bound references stand for.
pub open spec fn bound_model(bound: Seq<(u32, String)>) -> Seq<(u32, Seq<char>)> {
    bound.map_values(|b: (u32, String)| (b.0, b.1@))
}

/// The values with the columns that the tag lists, in order.
pub fn bind_ref_cols(idx_str: &str, args: &ScanArgs) -> (r: Vec<(u32, String)>)
    ensures
        bound_model(r@) == bound_columns(idx_str@, args.deep_view()),
{
    let texts = listed(idx_str);
    let ghost t = texts.deep_view();
    let mut columns: Vec<u32> = Vec::new();
    let mut i: usize = 0;
    assert(t.take(0) =~= seq![]);
    assert(columns@ =~= seq![]);
    while i < texts.len()
        invariant
            i <= texts@.len(),
            t == texts.deep_view(),
            columns@ == numbers_in(t.take(i as int)),
        decreases texts.len() - i,
    {
        proof {
            assert(t[i as int] == texts@[i as int]@);
            assert(t.take(i + 1).drop_last() =~= t.take(i as int));
        }
        if let Some(n) = read_unsigned(texts[i].as_str(), u32::MAX as u64) {
            columns.push(n as u32);
        }
        i = i + 1;
    }
    assert(t.take(i as int) =~= t);
    let ghost a = args.deep_view();
    assert(a.len() == args@.len());
    let n: usize = if columns.len() < args.len() {
        columns.len()
    } else {
        args.len()
    };
    let mut out: Vec<(u32, String)> = Vec::new();
    let mut k: usize = 0;
    assert(bound_model(out@) =~= seq![]);
    while k < n
        invariant
            k <= n <= args@.len(),
            n <= columns@.len(),
            a == args.deep_view(),
            bound_model(out@) == pairs_in(a, columns@, k as int),
        decreases n - k,
    {
        let ghost before = bound_model(out@);
        assert(a[k as int] == args@[k as int].deep_view());
        if let Some(x) = &args[k] {
            out.push((columns[k], x.clone()));
            assert(bound_model(out@) =~= before.push((columns@[k as int], x@)));
        }
        k = k + 1;
    }
    out
}

/// The reference on the highest column; of several the last.
pub open spec fn last_ref(bound: Seq<(u32, Seq<char>)>) -> Option<(u32, Seq<char>)>
    decreases bound.len(),
{
    if bound.len() == 0 {
        None
    } else {
        match last_ref(bound.drop_last()) {
            Some(b) => if b.0 > bound.last().0 {
                Some(b)
            } else {
                Some(bound.last())
            },
            None => Some(bound.last()),
        }
    }
}

/// The reference of a scan of one table.
pub fn table_ref(idx_str: &str, args: &ScanArgs) -> (r: Option<String>)
    ensures
        r.deep_view() == match last_ref(bound_columns(idx_str@, args.deep_view())) {
            Some(b) => Some(b.1),
            None => None,
        },
{
    let bound = bind_ref_cols(idx_str, args);
    let ghost b = bound_model(bound@);
    let mut best: Option<usize> = None;
    let mut i: usize = 0;
    assert(b.take(0) =~= seq![]);
    while i < bound.len()
        invariant
            i <= bound@.len(),
            b == bound_model(bound@),
            best matches Some(k) ==> k < i,
            last_ref(b.take(i as int)) == (match best {
                Some(k) => Some(b[k as int]),
                None => None,
            }),
        decreases bound.len() - i,
    {
        proof {
            assert(b.take(i + 1).drop_last() =~= b.take(i as int));
            assert(b[i as int].0 == bound@[i as int].0);
        }
        let keep = match best {
            Some(k) => bound[k].0 > bound[i].0,
            None => false,
        };
        if !keep {
            best = Some(i);
        }
        i = i + 1;
    }
    assert(b.take(i as int) =~= b);
    match best {
        Some(k) => Some(bound[k].1.clone()),
        None => None,
    }
}

/// The two references of a scan of the changes of one table: the lower column is
/// the older side. Both or neither.
pub open spec fn two_refs(bound: Seq<(u32, Seq<char>)>) -> Option<(Seq<char>, Seq<char>)> {
    if bound.len() != 2 || bound[0].0 == bound[1].0 {
        None
    } else if bound[0].0 < bound[1].0 {
        Some((bound[0].1, bound[1].1))
    } else {
        Some((bound[1].1, bound[0].1))
    }
}

/// The two references of a scan of the changes of one table.
pub fn diff_refs(idx_str: &str, args: &ScanArgs) -> (r: Option<(String, String)>)
    ensures
        r.deep_view() == two_refs(bound_columns(idx_str@, args.deep_view())),
{
    let bound = bind_ref_cols(idx_str, args);
    let ghost b = bound_model(bound@);
    assert(b.len() == bound@.len());
    if bound.len() != 2 || bound[0].0 == bound[1].0 {
        return None;
    }
    assert(b[0] == (bound@[0].0, bound@[0].1@));
    assert(b[1] == (bound@[1].0, bound@[1].1@));
    if bound[0].0 < bound[1].0 {
        Some((bound[0].1.clone(), bound[1].1.clone()))
    } else {
        Some((bound[1].1.clone(), bound[0].1.clone()))
    }
}

/// The references of a comparison, and its table. Both references are needed.
pub open spec fn compare_of(bound: Seq<Seq<char>>) -> Option<
    (Seq<char>, Seq<char>, Option<Seq<char>>),
> {
    if (bound.len() != 2 && bound.len() != 3) || bound[0].len() == 0 || bound[1].len() == 0 {
        None
    } else {
        Some(
            (
                bound[0],
                bound[1],
                if bound.len() == 3 {
                    Some(bound[2])
                } else {
                    None
                },
            ),
        )
    }
}

/// What a scan compares, where both sides are given.
pub type Comparison = (String, String, Option<String>);

/// What a comparison stands for.
pub open spec fn comparison_model(c: Comparison) -> (Seq<char>, Seq<char>, Option<Seq<char>>) {
    (c.0@, c.1@, c.2.deep_view())
}

proof fn lemma_empty_text(s: Seq<char>)
    ensures
        (s == ""@) == (s.len() == 0),
{
    reveal_strlit("");
    if s.len() == 0 {
        assert(s =~= ""@);
    }
}

/// The references and the table of a comparison.
pub fn compare_args(idx_str: &str, args: &ScanArgs) -> (r: Option<Comparison>)
    ensures
        match compare_of(bound_refs(idx_str@, args.deep_view())) {
            Some(m) => r matches Some(c) && comparison_model(c) == m,
            None => r is None,
        },
{
    let bound = bind_ref_args(idx_str, args);
    let ghost b = bound.deep_view();
    assert(b.len() == bound@.len());
    if bound.len() != 2 && bound.len() != 3 {
        return None;
    }
    proof {
        assert(b[0] == bound@[0]@);
        assert(b[1] == bound@[1]@);
        lemma_empty_text(b[0]);
        lemma_empty_text(b[1]);
    }
    if str_eq(bound[0].as_str(), "") || str_eq(bound[1].as_str(), "") {
        return None;
    }
    let table = if bound.len() == 3 {
        assert(b[2] == bound@[2]@);
        Some(bound[2].clone())
    } else {
        None
    };
    Some((bound[0].clone(), bound[1].clone(), table))
}

/// The references and the table of a patch. One reference stands for both sides;
/// a range such as `a..b` is left to be split, and so is a second side that is
/// empty.
pub open spec fn patch_of(bound: Seq<Seq<char>>) -> Option<
    (Seq<char>, Seq<char>, Option<Seq<char>>),
> {
    if bound.len() == 1 {
        if crate::text::find_from(bound[0], ".."@, 0) is Some {
            Some((bound[0], seq![], None))
        } else {
            Some((bound[0], bound[0], None))
        }
    } else if bound.len() == 2 {
        Some((bound[0], bound[1], None))
    } else if bound.len() == 3 {
        Some((bound[0], bound[1], Some(bound[2])))
    } else {
        None
    }
}

/// The references and the table of a patch.
pub fn patch_args(idx_str: &str, args: &ScanArgs) -> (r: Option<Comparison>)
    ensures
        match patch_of(bound_refs(idx_str@, args.deep_view())) {
            Some(m) => r matches Some(c) && comparison_model(c) == m,
            None => r is None,
        },
{
    let bound = bind_ref_args(idx_str, args);
    let ghost b = bound.deep_view();
    assert(b.len() == bound@.len());
    assert forall|k: int| 0 <= k < b.len() implies b[k] == (#[trigger] bound@[k])@ by {}
    if bound.len() == 1 {
        let dots = chars_of("..");
        assert(b[0] == bound@[0]@);
        return match cut_once(bound[0].as_str(), &dots) {
            Some(_) => {
                let to = String::new();
                assert(to@ =~= seq![]);
                Some((bound[0].clone(), to, None))
            },
            None => Some((bound[0].clone(), bound[0].clone(), None)),
        };
    }
    if bound.len() == 2 {
        return Some((bound[0].clone(), bound[1].clone(), None));
    }
    if bound.len() == 3 {
        return Some((bound[0].clone(), bound[1].clone(), Some(bound[2].clone())));
    }
    None
}

/// What a scan of the log reads.
#[derive(Debug, Clone, PartialEq, Eq)]
pub enum LogScan<S = String> {
    /// The commit of a hash.
    Hash(S),
    /// The history of a revision.
    Revision(S),
    /// Nothing: the branch has no commit yet.
    Nothing,
    /// The history of the head.
    Head,
}

impl DeepView for LogScan {
    type V = LogScan<Seq<char>>;

    open spec fn deep_view(&self) -> LogScan<Seq<char>> {
        match *self {
            LogScan::Hash(s) => LogScan::Hash(s@),
            LogScan::Revision(s) => LogScan::Revision(s@),
            LogScan::Nothing => LogScan::Nothing,
            LogScan::Head => LogScan::Head,
        }
    }
}

/// The text of a value, empty where it has none.
pub open spec fn arg_or_empty(args: ArgTexts, i: int) -> Seq<char> {
    match arg_at(args, i) {
        Some(t) => t,
        None => seq![],
    }
}

/// What a scan of the log reads. A fresh branch reads as an empty history.
pub open spec fn log_scan_of(s: StoreModel, idx_num: i32, args: ArgTexts) -> LogScan<Seq<char>> {
    if idx_num == 1 {
        LogScan::Hash(arg_or_empty(args, 0))
    } else if idx_num == 2 {
        LogScan::Revision(arg_or_empty(args, 0))
    } else if crate::staging::head_of(s) is None && s.detached is None {
        LogScan::Nothing
    } else {
        LogScan::Head
    }
}

fn text_or_empty(args: &ScanArgs, i: usize) -> (r: String)
    ensures
        r@ == arg_or_empty(args.deep_view(), i as int),
{
    match arg_text(args, i) {
        Some(t) => t,
        None => {
            let t = String::new();
            assert(t@ =~= seq![]);
            t
        },
    }
}

/// What a scan of the log reads.
pub fn log_scan(store: &VcStore, idx_num: i32, args: &ScanArgs) -> (r: LogScan)
    ensures
        r.deep_view() == log_scan_of(store.deep_view(), idx_num, args.deep_view()),
{
    if idx_num == 1 {
        LogScan::Hash(text_or_empty(args, 0))
    } else if idx_num == 2 {
        LogScan::Revision(text_or_empty(args, 0))
    } else if store.head_commit().is_none() && store.active_branch().is_some() {
        LogScan::Nothing
    } else {
        LogScan::Head
    }
}

/// The rows among the first `n` whose field is the wanted text.
pub open spec fn kept<A>(rows: Seq<A>, fields: Seq<Seq<char>>, want: Seq<char>, n: int) -> Seq<A>
    decreases n,
{
    if n <= 0 {
        seq![]
    } else if fields[n - 1] == want {
        kept(rows, fields, want, n - 1).push(rows[n - 1])
    } else {
        kept(rows, fields, want, n - 1)
    }
}

/// The rows whose field is the value at `i`, or all rows without such a value. The
/// engine does not check again what a plan has taken on.
pub fn retain<T: Dup>(rows: &Vec<T>, fields: &Vec<String>, args: &ScanArgs, i: usize) -> (r: Vec<T>)
    requires
        rows@.len() == fields@.len(),
    ensures
        r.deep_view() == match arg_at(args.deep_view(), i as int) {
            Some(want) => kept(rows.deep_view(), fields.deep_view(), want, rows@.len() as int),
            None => rows.deep_view(),
        },
{
    let want = match arg_text(args, i) {
        Some(t) => t,
        None => {
            return rows.dup();
        },
    };
    let ghost all = rows.deep_view();
    let ghost f = fields.deep_view();
    let mut out: Vec<T> = Vec::new();
    let mut k: usize = 0;
    assert(out.deep_view() =~= seq![]);
    while k < rows.len()
        invariant
            k <= rows@.len(),
            rows@.len() == fields@.len(),
            all == rows.deep_view(),
            f == fields.deep_view(),
            out.deep_view() == kept(all, f, want@, k as int),
        decreases rows.len() - k,
    {
        let ghost before = out.deep_view();
        proof {
            assert(all[k as int] == rows@[k as int].deep_view());
            assert(f[k as int] == fields@[k as int]@);
        }
        if str_eq(fields[k].as_str(), want.as_str()) {
            out.push(rows[k].dup());
            assert(out.deep_view() =~= before.push(all[k as int]));
        }
        k = k + 1;
    }
    out
}

// ---------------------------------------------------------------------------
// Rows
// ---------------------------------------------------------------------------

/// A part of a text. The digits of a real number are left to whoever shows it.
#[derive(Debug, Clone, PartialEq, Eq)]
pub enum Piece<S = String> {
    Said(S),
    Real(u64),
}

/// What a part of a text stands for.
pub type PieceModel = Piece<Seq<char>>;

impl DeepView for Piece {
    type V = PieceModel;

    open spec fn deep_view(&self) -> PieceModel {
        match *self {
            Piece::Said(s) => Piece::Said(s@),
            Piece::Real(b) => Piece::Real(b),
        }
    }
}

/// Bytes as an SQL literal.
pub open spec fn blob_literal(bytes: Seq<u8>) -> Seq<char> {
    "X'"@ + crate::digest::hex_text(bytes) + "'"@
}

pub fn blob_text(bytes: &[u8]) -> (r: String)
    ensures
        r@ == blob_literal(bytes@),
{
    cat3("X'", hex_of(bytes).as_str(), "'")
}

/// The text of a value.
pub open spec fn value_piece(v: CellModel) -> PieceModel {
    match v {
        VcValue::Null => Piece::Said("NULL"@),
        VcValue::Integer(i) => Piece::Said(crate::text::decimal_int(i as int)),
        VcValue::Real(b) => Piece::Real(b),
        VcValue::Text(s) => Piece::Said(s),
        VcValue::Blob(b) => Piece::Said(blob_literal(b)),
    }
}

pub fn value_text(v: &VcValue) -> (r: Piece)
    ensures
        r.deep_view() == value_piece(v.deep_view()),
{
    match v {
        VcValue::Null => Piece::Said("NULL".to_owned()),
        VcValue::Integer(i) => Piece::Said(decimal_int_text(*i)),
        VcValue::Real(b) => Piece::Real(*b),
        VcValue::Text(s) => Piece::Said(s.clone()),
        VcValue::Blob(b) => Piece::Said(blob_text(b.as_slice())),
    }
}

/// The texts of values with commas between them.
pub open spec fn joined_values(values: RowModel) -> Seq<PieceModel>
    decreases values.len(),
{
    if values.len() == 0 {
        seq![]
    } else if values.len() == 1 {
        seq![value_piece(values[0])]
    } else {
        joined_values(values.drop_last()).push(Piece::Said(","@)).push(value_piece(values.last()))
    }
}

pub fn join_values(values: &Vec<VcValue>) -> (r: Vec<Piece>)
    ensures
        r.deep_view() == joined_values(values.deep_view()),
{
    let ghost v = values.deep_view();
    let mut out: Vec<Piece> = Vec::new();
    let mut i: usize = 0;
    assert(v.take(0) =~= seq![]);
    assert(out.deep_view() =~= seq![]);
    while i < values.len()
        invariant
            i <= values@.len(),
            v == values.deep_view(),
            out.deep_view() == joined_values(v.take(i as int)),
        decreases values.len() - i,
    {
        let ghost before = out.deep_view();
        proof {
            assert(v[i as int] == values@[i as int].deep_view());
            assert(v.take(i + 1).drop_last() =~= v.take(i as int));
        }
        if i > 0 {
            out.push(Piece::Said(",".to_owned()));
            assert(out.deep_view() =~= before.push(Piece::Said(","@)));
        }
        let ghost middle = out.deep_view();
        out.push(value_text(&values[i]));
        assert(out.deep_view() =~= middle.push(value_piece(v[i as int])));
        assert(i == 0 ==> out.deep_view() =~= seq![value_piece(v[0])]);
        i = i + 1;
    }
    assert(v.take(i as int) =~= v);
    out
}

/// The cells of a row that may be missing.
pub open spec fn cells_of(row: Option<RowModel>) -> RowModel {
    match row {
        Some(r) => r,
        None => seq![],
    }
}

fn row_cells(row: &Option<VcRow>) -> (r: Vec<VcValue>)
    ensures
        r.deep_view() == cells_of(row.deep_view()),
{
    match row {
        Some(x) => x.values.dup(),
        None => {
            let none: Vec<VcValue> = Vec::new();
            assert(none.deep_view() =~= seq![]);
            none
        },
    }
}

/// The texts of a row that may be missing.
pub fn row_text(row: &Option<VcRow>) -> (r: Vec<Piece>)
    ensures
        r.deep_view() == joined_values(cells_of(row.deep_view())),
{
    join_values(&row_cells(row))
}

/// The name of a kind of conflict.
pub open spec fn conflict_name(k: ConflictKind<Seq<char>>) -> Seq<char> {
    match k {
        ConflictKind::Rows => "rows"@,
        ConflictKind::Schema(_) => "schema"@,
    }
}

fn conflict_word(k: &ConflictKind) -> (r: String)
    ensures
        r@ == conflict_name(k.deep_view()),
{
    match k {
        ConflictKind::Rows => "rows".to_owned(),
        ConflictKind::Schema(_) => "schema".to_owned(),
    }
}

/// A row of the conflicts of all tables.
#[derive(Debug, Clone, PartialEq, Eq)]
pub struct ConflictLine {
    pub table: String,
    pub pk: Vec<Piece>,
    pub base: Vec<Piece>,
    pub ours: Vec<Piece>,
    pub theirs: Vec<Piece>,
    pub kind: String,
}

/// What a row of the conflicts stands for.
pub struct ConflictLineModel {
    pub table: Seq<char>,
    pub pk: Seq<PieceModel>,
    pub base: Seq<PieceModel>,
    pub ours: Seq<PieceModel>,
    pub theirs: Seq<PieceModel>,
    pub kind: Seq<char>,
}

impl DeepView for ConflictLine {
    type V = ConflictLineModel;

    open spec fn deep_view(&self) -> ConflictLineModel {
        ConflictLineModel {
            table: self.table@,
            pk: self.pk.deep_view(),
            base: self.base.deep_view(),
            ours: self.ours.deep_view(),
            theirs: self.theirs.deep_view(),
            kind: self.kind@,
        }
    }
}

/// A conflict as a row of text.
pub open spec fn conflict_line(e: EntryModel) -> ConflictLineModel {
    ConflictLineModel {
        table: e.table,
        pk: joined_values(e.pk),
        base: joined_values(cells_of(e.base)),
        ours: joined_values(cells_of(e.ours)),
        theirs: joined_values(cells_of(e.theirs)),
        kind: conflict_name(e.kind),
    }
}

/// The text that rows of a table are asked for by.
pub open spec fn wanted_table(idx_num: i32, args: ArgTexts) -> Option<Seq<char>> {
    if idx_num == 1 {
        arg_at(args, 0)
    } else {
        None
    }
}

fn want_table(idx_num: i32, args: &ScanArgs) -> (r: Option<String>)
    ensures
        r.deep_view() == wanted_table(idx_num, args.deep_view()),
{
    if idx_num == 1 {
        arg_text(args, 0)
    } else {
        None
    }
}

/// Is a table wanted?
pub open spec fn is_wanted(table: Seq<char>, want: Option<Seq<char>>) -> bool {
    match want {
        Some(t) => table == t,
        None => true,
    }
}

fn wanted(table: &str, want: &Option<String>) -> (r: bool)
    ensures
        r == is_wanted(table@, want.deep_view()),
{
    match want {
        Some(t) => str_eq(table, t.as_str()),
        None => true,
    }
}

/// The rows of the conflicts of the wanted tables.
pub open spec fn conflict_lines(entries: Seq<EntryModel>, want: Option<Seq<char>>) -> Seq<
    ConflictLineModel,
>
    decreases entries.len(),
{
    if entries.len() == 0 {
        seq![]
    } else {
        let before = conflict_lines(entries.drop_last(), want);
        if is_wanted(entries.last().table, want) {
            before.push(conflict_line(entries.last()))
        } else {
            before
        }
    }
}

/// The conflicts of all tables, or of the one that is asked for.
pub fn build_conflicts(store: &VcStore, idx_num: i32, args: &ScanArgs) -> (r: Vec<ConflictLine>)
    ensures
        r.deep_view() == conflict_lines(
            store.deep_view().conflicts,
            wanted_table(idx_num, args.deep_view()),
        ),
{
    let want = want_table(idx_num, args);
    let entries = &store.conflicts;
    let ghost all = entries.deep_view();
    let mut out: Vec<ConflictLine> = Vec::new();
    let mut i: usize = 0;
    assert(all.take(0) =~= seq![]);
    assert(out.deep_view() =~= seq![]);
    while i < entries.len()
        invariant
            i <= entries@.len(),
            all == entries.deep_view(),
            out.deep_view() == conflict_lines(all.take(i as int), want.deep_view()),
        decreases entries.len() - i,
    {
        let ghost before = out.deep_view();
        proof {
            assert(all[i as int] == entries@[i as int].deep_view());
            assert(all.take(i + 1).drop_last() =~= all.take(i as int));
        }
        let e: &ConflictEntry = &entries[i];
        if wanted(e.table.as_str(), &want) {
            out.push(
                ConflictLine {
                    table: e.table.clone(),
                    pk: join_values(&e.pk),
                    base: row_text(&e.base),
                    ours: row_text(&e.ours),
                    theirs: row_text(&e.theirs),
                    kind: conflict_word(&e.kind),
                },
            );
            assert(out.deep_view() =~= before.push(conflict_line(all[i as int])));
        }
        i = i + 1;
    }
    assert(all.take(i as int) =~= all);
    out
}

/// A row of the constraint violations.
#[derive(Debug, Clone, PartialEq, Eq)]
pub struct ViolationLine {
    pub table: String,
    pub kind: String,
    pub pk: Vec<Piece>,
    pub details: String,
}

/// What a row of the constraint violations stands for.
pub struct ViolationLineModel {
    pub table: Seq<char>,
    pub kind: Seq<char>,
    pub pk: Seq<PieceModel>,
    pub details: Seq<char>,
}

impl DeepView for ViolationLine {
    type V = ViolationLineModel;

    open spec fn deep_view(&self) -> ViolationLineModel {
        ViolationLineModel {
            table: self.table@,
            kind: self.kind@,
            pk: self.pk.deep_view(),
            details: self.details@,
        }
    }
}

/// A violation as a row of text.
pub open spec fn violation_line(v: ViolationModel) -> ViolationLineModel {
    ViolationLineModel {
        table: v.table,
        kind: crate::constraints::kind_text(v.kind),
        pk: joined_values(v.row_pk),
        details: v.detail,
    }
}

/// The rows of the violations of the wanted tables.
pub open spec fn violation_lines(all: Seq<ViolationModel>, want: Option<Seq<char>>) -> Seq<
    ViolationLineModel,
>
    decreases all.len(),
{
    if all.len() == 0 {
        seq![]
    } else {
        let before = violation_lines(all.drop_last(), want);
        if is_wanted(all.last().table, want) {
            before.push(violation_line(all.last()))
        } else {
            before
        }
    }
}

fn violations_of(list: &Vec<Violation>, want: &Option<String>) -> (r: Vec<ViolationLine>)
    ensures
        r.deep_view() == violation_lines(list.deep_view(), want.deep_view()),
{
    let ghost all = list.deep_view();
    let mut out: Vec<ViolationLine> = Vec::new();
    let mut i: usize = 0;
    assert(all.take(0) =~= seq![]);
    assert(out.deep_view() =~= seq![]);
    while i < list.len()
        invariant
            i <= list@.len(),
            all == list.deep_view(),
            out.deep_view() == violation_lines(all.take(i as int), want.deep_view()),
        decreases list.len() - i,
    {
        let ghost before = out.deep_view();
        proof {
            assert(all[i as int] == list@[i as int].deep_view());
            assert(all.take(i + 1).drop_last() =~= all.take(i as int));
        }
        let v: &Violation = &list[i];
        if wanted(v.table.as_str(), want) {
            out.push(
                ViolationLine {
                    table: v.table.clone(),
                    kind: v.kind.to_string(),
                    pk: join_values(&v.row_pk),
                    details: v.detail.clone(),
                },
            );
            assert(out.deep_view() =~= before.push(violation_line(all[i as int])));
        }
        i = i + 1;
    }
    assert(all.take(i as int) =~= all);
    out
}

/// The violations of all tables, or of the one that is asked for.
pub fn build_violations(store: &VcStore, idx_num: i32, args: &ScanArgs) -> (r: Vec<ViolationLine>)
    ensures
        r.deep_view() == violation_lines(
            store.deep_view().violations,
            wanted_table(idx_num, args.deep_view()),
        ),
{
    violations_of(&store.violations, &want_table(idx_num, args))
}

/// The violations of one table.
pub fn build_violations_t(store: &VcStore, table: &str) -> (r: Vec<ViolationLine>)
    ensures
        r.deep_view() == violation_lines(store.deep_view().violations, Some(table@)),
{
    violations_of(&store.violations, &Some(table.to_owned()))
}

/// A row of the state of a merge.
pub open spec fn status_cells(m: crate::replay::MergeStatusModel) -> RowModel {
    seq![
        VcValue::Text(m.table),
        VcValue::Integer(m.rows_merged),
        VcValue::Integer(m.rows_conflicted),
        VcValue::Integer(m.schema_conflict),
        VcValue::Text(m.state),
    ]
}

/// The state of a merge, table by table.
pub fn build_merge_status(store: &VcStore) -> (r: Vec<Vec<VcValue>>)
    ensures
        r.deep_view() == crate::replay::merge_status(store.deep_view()).map_values(
            |m: crate::replay::MergeStatusModel| status_cells(m),
        ),
{
    let lines = store.merge_status_rows();
    let ghost all = lines.deep_view();
    let mut out: Vec<Vec<VcValue>> = Vec::new();
    let mut i: usize = 0;
    while i < lines.len()
        invariant
            i <= lines@.len(),
            all == lines.deep_view(),
            out@.len() == i,
            forall|j: int| 0 <= j < i ==> (#[trigger] out@[j]).deep_view() == status_cells(all[j]),
        decreases lines.len() - i,
    {
        assert(all[i as int] == lines@[i as int].deep_view());
        let mut row: Vec<VcValue> = Vec::new();
        row.push(VcValue::Text(lines[i].table.clone()));
        row.push(VcValue::Integer(lines[i].rows_merged));
        row.push(VcValue::Integer(lines[i].rows_conflicted));
        row.push(VcValue::Integer(lines[i].schema_conflict));
        row.push(VcValue::Text(lines[i].state.clone()));
        assert(row.deep_view() =~= status_cells(all[i as int]));
        out.push(row);
        i = i + 1;
    }
    assert(out.deep_view() =~= all.map_values(
        |m: crate::replay::MergeStatusModel| status_cells(m),
    ));
    out
}

/// A row with empty cells behind it up to a width.
pub open spec fn padded(row: RowModel, width: nat) -> RowModel {
    if row.len() >= width {
        row
    } else {
        row + Seq::new((width - row.len()) as nat, |i: int| CellModel::Null)
    }
}

fn pad(row: Vec<VcValue>, width: usize) -> (r: Vec<VcValue>)
    ensures
        r.deep_view() == padded(row.deep_view(), width as nat),
{
    let ghost given = row.deep_view();
    let mut r = row;
    assert(given.len() == r@.len());
    while r.len() < width
        invariant
            given.len() <= r@.len(),
            r@.len() <= width || r@.len() == given.len(),
            r.deep_view() == padded(given, r@.len()),
        decreases width - r.len(),
    {
        let ghost before = r.deep_view();
        r.push(VcValue::Null);
        assert(r.deep_view() =~= before.push(CellModel::Null));
        assert(r.deep_view() =~= padded(given, r@.len()));
    }
    r
}

/// A conflict of one table as a row: its key, the three rows, the kind.
pub open spec fn conflict_cells(e: EntryModel, width: nat) -> RowModel {
    padded(
        (e.pk + cells_of(e.base) + cells_of(e.ours) + cells_of(e.theirs)).push(
            VcValue::Text(conflict_name(e.kind)),
        ),
        width,
    )
}

/// The rows of the conflicts of one table.
pub open spec fn conflict_rows(entries: Seq<EntryModel>, table: Seq<char>, width: nat) -> Seq<RowModel>
    decreases entries.len(),
{
    if entries.len() == 0 {
        seq![]
    } else {
        let before = conflict_rows(entries.drop_last(), table, width);
        if entries.last().table == table {
            before.push(conflict_cells(entries.last(), width))
        } else {
            before
        }
    }
}

/// How many columns the conflicts of a table with these columns have.
pub fn conflicts_width(columns: &Vec<String>) -> (r: usize)
    requires
        columns@.len() * 4 + 1 <= usize::MAX,
    ensures
        r == columns@.len() * 4 + 1,
{
    columns.len() * 4 + 1
}

/// Put cells behind a row.
pub fn append_cells(row: &mut Vec<VcValue>, more: &Vec<VcValue>)
    ensures
        final(row).deep_view() == old(row).deep_view() + more.deep_view(),
{
    let ghost given = row.deep_view();
    let ghost m = more.deep_view();
    let mut i: usize = 0;
    assert(given + m.take(0) =~= given);
    while i < more.len()
        invariant
            i <= more@.len(),
            m == more.deep_view(),
            row.deep_view() == given + m.take(i as int),
        decreases more.len() - i,
    {
        let ghost before = row.deep_view();
        row.push(more[i].dup());
        proof {
            assert(m[i as int] == more@[i as int].deep_view());
            assert(row.deep_view() =~= before.push(m[i as int]));
            assert(row.deep_view() =~= given + m.take(i + 1));
        }
        i = i + 1;
    }
    assert(m.take(i as int) =~= m);
}

/// The conflicts of one table. A conflict of schemas has no rows: its row is filled
/// up to the width.
pub fn build_conflicts_t(store: &VcStore, table: &str, width: usize) -> (r: Vec<Vec<VcValue>>)
    ensures
        r.deep_view() == conflict_rows(store.deep_view().conflicts, table@, width as nat),
{
    let entries = &store.conflicts;
    let ghost all = entries.deep_view();
    let mut out: Vec<Vec<VcValue>> = Vec::new();
    let mut i: usize = 0;
    assert(all.take(0) =~= seq![]);
    assert(out.deep_view() =~= seq![]);
    while i < entries.len()
        invariant
            i <= entries@.len(),
            all == entries.deep_view(),
            out.deep_view() == conflict_rows(all.take(i as int), table@, width as nat),
        decreases entries.len() - i,
    {
        let ghost before = out.deep_view();
        proof {
            assert(all[i as int] == entries@[i as int].deep_view());
            assert(all.take(i + 1).drop_last() =~= all.take(i as int));
        }
        let e: &ConflictEntry = &entries[i];
        if str_eq(e.table.as_str(), table) {
            let mut row = e.pk.dup();
            append_cells(&mut row, &row_cells(&e.base));
            append_cells(&mut row, &row_cells(&e.ours));
            append_cells(&mut row, &row_cells(&e.theirs));
            let ghost cells = row.deep_view();
            row.push(VcValue::Text(conflict_word(&e.kind)));
            assert(row.deep_view() =~= cells.push(
                VcValue::Text(conflict_name(all[i as int].kind)),
            ));
            let row = pad(row, width);
            let ghost last = row.deep_view();
            out.push(row);
            assert(out.deep_view() =~= before.push(last));
        }
        i = i + 1;
    }
    assert(all.take(i as int) =~= all);
    out
}

/// How a row changed between two commits.
#[derive(Debug, Clone, Copy, PartialEq, Eq, Structural)]
pub enum DiffType {
    Added,
    Modified,
    Deleted,
}

/// The name of a change.
pub open spec fn change_name(t: DiffType) -> Seq<char> {
    match t {
        DiffType::Added => "added"@,
        DiffType::Modified => "modified"@,
        DiffType::Deleted => "deleted"@,
    }
}

pub fn diff_type_text(t: DiffType) -> (r: String)
    ensures
        r@ == change_name(t),
{
    match t {
        DiffType::Added => "added".to_owned(),
        DiffType::Modified => "modified".to_owned(),
        DiffType::Deleted => "deleted".to_owned(),
    }
}

/// A changed row of one table. The side that has no such row has no cells.
#[derive(Debug, Clone, PartialEq, Eq)]
pub struct TableDiffRow {
    pub to: Vec<VcValue>,
    pub to_commit: String,
    pub to_date: String,
    pub from: Vec<VcValue>,
    pub from_commit: String,
    pub from_date: String,
    pub diff_type: DiffType,
}

/// What a changed row stands for.
pub struct TableDiffModel {
    pub to: RowModel,
    pub to_commit: Seq<char>,
    pub to_date: Seq<char>,
    pub from: RowModel,
    pub from_commit: Seq<char>,
    pub from_date: Seq<char>,
    pub diff_type: DiffType,
}

impl DeepView for TableDiffRow {
    type V = TableDiffModel;

    open spec fn deep_view(&self) -> TableDiffModel {
        TableDiffModel {
            to: self.to.deep_view(),
            to_commit: self.to_commit@,
            to_date: self.to_date@,
            from: self.from.deep_view(),
            from_commit: self.from_commit@,
            from_date: self.from_date@,
            diff_type: self.diff_type,
        }
    }
}

/// How many columns the table of a changed row has.
pub open spec fn live_columns(d: TableDiffModel) -> nat {
    if d.to.len() >= d.from.len() {
        d.to.len()
    } else {
        d.from.len()
    }
}

/// A changed row as cells. Both sides fill the columns of the table, so that every
/// later cell stands at its place.
pub open spec fn diff_cells_of(d: TableDiffModel, from: Seq<char>, to: Seq<char>) -> RowModel {
    padded(d.to, live_columns(d)) + seq![VcValue::Text(d.to_commit), VcValue::Text(d.to_date)]
        + padded(d.from, live_columns(d)) + seq![
        VcValue::Text(d.from_commit),
        VcValue::Text(d.from_date),
        VcValue::Text(change_name(d.diff_type)),
        VcValue::Text(from),
        VcValue::Text(to),
    ]
}

/// The cells of a changed row, with the references it was asked for by.
pub fn diff_cells(d: &TableDiffRow, from: &str, to: &str) -> (r: Vec<VcValue>)
    ensures
        r.deep_view() == diff_cells_of(d.deep_view(), from@, to@),
{
    assert(d.to.deep_view().len() == d.to@.len());
    assert(d.from.deep_view().len() == d.from@.len());
    let live: usize = if d.to.len() >= d.from.len() {
        d.to.len()
    } else {
        d.from.len()
    };
    let mut row = pad(d.to.dup(), live);
    let mut middle: Vec<VcValue> = Vec::new();
    middle.push(VcValue::Text(d.to_commit.clone()));
    middle.push(VcValue::Text(d.to_date.clone()));
    assert(middle.deep_view() =~= seq![VcValue::Text(d.to_commit@), VcValue::Text(d.to_date@)]);
    append_cells(&mut row, &middle);
    append_cells(&mut row, &pad(d.from.dup(), live));
    let mut tail: Vec<VcValue> = Vec::new();
    tail.push(VcValue::Text(d.from_commit.clone()));
    tail.push(VcValue::Text(d.from_date.clone()));
    tail.push(VcValue::Text(diff_type_text(d.diff_type)));
    tail.push(VcValue::Text(from.to_owned()));
    tail.push(VcValue::Text(to.to_owned()));
    assert(tail.deep_view() =~= seq![
        VcValue::Text(d.from_commit@),
        VcValue::Text(d.from_date@),
        VcValue::Text(change_name(d.diff_type)),
        VcValue::Text(from@),
        VcValue::Text(to@),
    ]);
    append_cells(&mut row, &tail);
    row
}

// ---------------------------------------------------------------------------
// Tables and cursors
// ---------------------------------------------------------------------------

/// A virtual table; those of one user table know its name.
#[derive(Debug, Clone, PartialEq, Eq)]
pub struct VcTable {
    pub kind: VcKind,
    pub table: String,
}

/// The plan of a table for a query. The list of remotes has none of its own.
pub open spec fn plan_of(kind: VcKind, cs: Seq<VcConstraint>) -> Option<PlanModel> {
    match kind {
        VcKind::Log => Some(crate::vtab_plan::two_way_plan(cs, 0, 5, 1024)),
        VcKind::Schemas => Some(crate::vtab_plan::two_way_plan(cs, 0, 1, 64)),
        VcKind::Diff => Some(crate::vtab_plan::two_way_plan(cs, 0, 7, 1024)),
        VcKind::DiffStat => Some(refs_plan(cs, seq![12, 13, 14])),
        VcKind::DiffSummary => Some(refs_plan(cs, seq![5, 6, 7])),
        VcKind::SchemaDiff => Some(refs_plan(cs, seq![4, 5, 6])),
        VcKind::Patch => Some(refs_plan(cs, seq![6, 7, 8])),
        VcKind::MergeStatus => Some(crate::vtab_plan::equality_plan(cs, 0, 8)),
        VcKind::Conflicts => Some(crate::vtab_plan::equality_plan(cs, 0, 16)),
        VcKind::Violations => Some(crate::vtab_plan::equality_plan(cs, 0, 16)),
        VcKind::Branches => Some(crate::vtab_plan::equality_plan(cs, 0, 8)),
        VcKind::Tags => Some(crate::vtab_plan::equality_plan(cs, 0, 8)),
        VcKind::Remotes => None,
        VcKind::RemoteBranches => Some(crate::vtab_plan::equality_plan(cs, 3, 8)),
        VcKind::HistoryT => Some(table_plan(cs, 1, "start"@)),
        VcKind::AtT => Some(table_plan(cs, 1, "ref"@)),
        VcKind::BlameT => Some(crate::vtab_plan::blame_plan(cs, 64)),
        VcKind::DiffT => Some(table_plan(cs, 2, "refs"@)),
        VcKind::ConflictsT => Some(crate::vtab_plan::full_scan(cs.len(), 1000, 8)),
        VcKind::ViolationsT => Some(crate::vtab_plan::equality_plan(cs, 0, 16)),
    }
}

/// The plan of a table whose references are known columns.
pub open spec fn refs_plan(cs: Seq<VcConstraint>, columns: Seq<u32>) -> PlanModel {
    crate::vtab_plan::tagged_plan(
        cs,
        crate::vtab_plan::on_columns(cs, columns),
        "refs"@,
        64,
    )
}

/// The plan of a table of one user table.
pub open spec fn table_plan(cs: Seq<VcConstraint>, hidden: nat, tag: Seq<char>) -> PlanModel {
    crate::vtab_plan::tagged_plan(cs, crate::vtab_plan::highest(cs, hidden), tag, 64)
}

fn three(cs: &[VcConstraint], a: u32, b: u32, c: u32) -> (r: VcPlan)
    ensures
        r.deep_view() == refs_plan(cs@, seq![a, b, c]),
{
    let columns: [u32; 3] = [a, b, c];
    assert(columns@ =~= seq![a, b, c]);
    plan_refs(cs, columns.as_slice(), 64)
}

fn make_plan(kind: VcKind, cs: &[VcConstraint], order: &[VcOrderBy]) -> (r: Option<VcPlan>)
    ensures
        match plan_of(kind, cs@) {
            Some(m) => r matches Some(p) && p.deep_view() == m,
            None => r is None,
        },
{
    match kind {
        VcKind::Log => Some(plan_log(cs, order, 1024)),
        VcKind::Schemas => Some(plan_schemas(cs, 64)),
        VcKind::Diff => Some(plan_diff(cs, 1024)),
        VcKind::DiffStat => Some(three(cs, 12, 13, 14)),
        VcKind::DiffSummary => Some(three(cs, 5, 6, 7)),
        VcKind::SchemaDiff => Some(three(cs, 4, 5, 6)),
        VcKind::Patch => Some(three(cs, 6, 7, 8)),
        VcKind::MergeStatus => Some(plan_equality(cs, 0, 8)),
        VcKind::Conflicts => Some(plan_equality(cs, 0, 16)),
        VcKind::Violations => Some(plan_equality(cs, 0, 16)),
        VcKind::Branches => Some(plan_equality(cs, 0, 8)),
        VcKind::Tags => Some(plan_equality(cs, 0, 8)),
        VcKind::Remotes => None,
        VcKind::RemoteBranches => Some(plan_equality(cs, 3, 8)),
        VcKind::HistoryT => Some(plan_per_table_refs(cs, 1, "start", 64)),
        VcKind::AtT => Some(plan_per_table_refs(cs, 1, "ref", 64)),
        VcKind::BlameT => Some(plan_blame_probe(cs, 64)),
        VcKind::DiffT => Some(plan_per_table_refs(cs, 2, "refs", 64)),
        VcKind::ConflictsT => Some(crate::vtab_plan::full(cs.len(), 1000, 8)),
        VcKind::ViolationsT => Some(plan_equality(cs, 0, 16)),
    }
}

impl VcTable {
    /// A table that speaks of no user table.
    pub fn new(kind: VcKind) -> (r: Self)
        ensures
            r.kind == kind,
            r.table@ == Seq::<char>::empty(),
    {
        let table = String::new();
        assert(table@ =~= seq![]);
        VcTable { kind, table }
    }

    /// A table of one user table.
    pub fn of(kind: VcKind, table: String) -> (r: Self)
        ensures
            r.kind == kind,
            r.table == table,
    {
        VcTable { kind, table }
    }

    /// What the engine is told for a query; none where the table leaves it to the
    /// engine.
    pub fn best_index(&self, constraints: &[VcConstraint], order_by: &[VcOrderBy]) -> (r: Option<
        IndexInfo,
    >)
        requires
            constraints@.len() < u32::MAX,
        ensures
            match plan_of(self.kind, constraints@) {
                Some(m) => r matches Some(i) && i.deep_view() == info_of(m),
                None => r is None,
            },
    {
        match make_plan(self.kind, constraints, order_by) {
            Some(plan) => {
                assert(plan.deep_view().omit.len() == constraints@.len());
                Some(index_info(&plan))
            },
            None => None,
        }
    }

    /// A cursor that has read nothing yet.
    pub fn open(&self) -> (r: VcCursor)
        ensures
            r.deep_view() == (CursorModel {
                kind: self.kind,
                table: self.table@,
                rows: seq![],
                pos: 0,
                error: None,
                delivered: false,
            }),
    {
        let rows: Vec<Vec<VcValue>> = Vec::new();
        assert(rows.deep_view() =~= seq![]);
        VcCursor {
            kind: self.kind,
            table: self.table.clone(),
            rows,
            pos: 0,
            error: None,
            delivered: false,
        }
    }
}

/// What a step of a scan answers.
#[derive(Debug, Clone, Copy, PartialEq, Eq, Structural)]
pub enum ResultCode {
    OK,
    EOF,
    Error,
}

/// A cursor: the rows of a scan, or why there are none. The message of a failed
/// scan comes with the first cell that is read.
#[derive(Debug, Clone, PartialEq, Eq)]
pub struct VcCursor {
    pub kind: VcKind,
    pub table: String,
    pub rows: Vec<Vec<VcValue>>,
    pub pos: usize,
    pub error: Option<String>,
    pub delivered: bool,
}

/// What a cursor stands for.
pub struct CursorModel {
    pub kind: VcKind,
    pub table: Seq<char>,
    pub rows: Seq<RowModel>,
    pub pos: usize,
    pub error: Option<Seq<char>>,
    pub delivered: bool,
}

impl DeepView for VcCursor {
    type V = CursorModel;

    open spec fn deep_view(&self) -> CursorModel {
        CursorModel {
            kind: self.kind,
            table: self.table@,
            rows: self.rows.deep_view(),
            pos: self.pos,
            error: self.error.deep_view(),
            delivered: self.delivered,
        }
    }
}

/// A cursor at the start of what a scan gave.
pub open spec fn filtered(c: CursorModel, found: Result<Seq<RowModel>, Seq<char>>) -> (
    CursorModel,
    ResultCode,
) {
    match found {
        Ok(rows) => (
            CursorModel { rows, pos: 0, error: None, delivered: false, ..c },
            if rows.len() == 0 {
                ResultCode::EOF
            } else {
                ResultCode::OK
            },
        ),
        Err(msg) => (
            CursorModel { rows: seq![], pos: 0, error: Some(msg), delivered: false, ..c },
            ResultCode::OK,
        ),
    }
}

/// A cursor one row further.
pub open spec fn advanced(c: CursorModel) -> (CursorModel, ResultCode) {
    if c.error is Some {
        (CursorModel { delivered: true, ..c }, ResultCode::Error)
    } else if c.pos + 1 >= c.rows.len() {
        (CursorModel { pos: c.rows.len() as usize, ..c }, ResultCode::EOF)
    } else {
        (CursorModel { pos: (c.pos + 1) as usize, ..c }, ResultCode::OK)
    }
}

/// Is a cursor at its end? A message that nobody has seen keeps it open.
pub open spec fn at_end(c: CursorModel) -> bool {
    (c.error is None || c.delivered) && c.pos >= c.rows.len()
}

/// The cell of the row under a cursor.
pub open spec fn cell_at(c: CursorModel, idx: int) -> Result<CellModel, Seq<char>> {
    match c.error {
        Some(msg) => if c.delivered {
            Ok(CellModel::Null)
        } else {
            Err(msg)
        },
        None => if c.pos < c.rows.len() && idx < c.rows[c.pos as int].len() {
            Ok(c.rows[c.pos as int][idx])
        } else {
            Ok(CellModel::Null)
        },
    }
}

impl VcCursor {
    /// Start over with what a scan gave. The answer drives the engine: an end skips
    /// the scan. A failure answers well, so that the first cell can give its message.
    pub fn filter(&mut self, found: Result<Vec<Vec<VcValue>>, String>) -> (r: ResultCode)
        ensures
            filtered(
                old(self).deep_view(),
                (match found {
                    Ok(rows) => Ok(rows.deep_view()),
                    Err(msg) => Err(msg@),
                }),
            ) == (final(self).deep_view(), r),
    {
        self.pos = 0;
        self.delivered = false;
        match found {
            Ok(rows) => {
                assert(rows.deep_view().len() == rows@.len());
                let none = rows.len() == 0;
                self.rows = rows;
                self.error = None;
                if none {
                    ResultCode::EOF
                } else {
                    ResultCode::OK
                }
            },
            Err(msg) => {
                self.rows = Vec::new();
                assert(self.rows.deep_view() =~= seq![]);
                self.error = Some(msg);
                ResultCode::OK
            },
        }
    }

    /// The number of the row, from 1 on.
    pub fn rowid(&self) -> (r: i64)
        requires
            self.pos < i64::MAX,
        ensures
            r == self.pos + 1,
    {
        self.pos as i64 + 1
    }

    /// A cell of the row.
    pub fn column(&self, idx: u32) -> (r: Result<VcValue, String>)
        ensures
            match cell_at(self.deep_view(), idx as int) {
                Ok(m) => r matches Ok(v) && v.deep_view() == m,
                Err(m) => r matches Err(e) && e@ == m,
            },
    {
        if let Some(msg) = &self.error {
            if !self.delivered {
                return Err(msg.clone());
            }
            return Ok(VcValue::Null);
        }
        assert(self.rows.deep_view().len() == self.rows@.len());
        if self.pos < self.rows.len() {
            let row = &self.rows[self.pos];
            assert(self.rows.deep_view()[self.pos as int] == row.deep_view());
            assert(row.deep_view().len() == row@.len());
            if (idx as usize) < row.len() {
                assert(row.deep_view()[idx as int] == row@[idx as int].deep_view());
                return Ok(row[idx as usize].dup());
            }
        }
        Ok(VcValue::Null)
    }

    /// Is the scan at its end?
    pub fn eof(&self) -> (r: bool)
        ensures
            r == at_end(self.deep_view()),
    {
        assert(self.rows.deep_view().len() == self.rows@.len());
        if self.error.is_some() && !self.delivered {
            return false;
        }
        self.pos >= self.rows.len()
    }

    /// Go on to the next row.
    pub fn next(&mut self) -> (r: ResultCode)
        ensures
            advanced(old(self).deep_view()) == (final(self).deep_view(), r),
    {
        assert(self.rows.deep_view().len() == self.rows@.len());
        if self.error.is_some() {
            self.delivered = true;
            return ResultCode::Error;
        }
        if self.rows.len() == 0 || self.pos >= self.rows.len() - 1 {
            self.pos = self.rows.len();
            return ResultCode::EOF;
        }
        self.pos = self.pos + 1;
        ResultCode::OK
    }
}

// ---------------------------------------------------------------------------
// Laws
// ---------------------------------------------------------------------------

/// A cursor after a number of steps.
pub open spec fn after(c: CursorModel, n: nat) -> CursorModel
    decreases n,
{
    if n == 0 {
        c
    } else {
        advanced(after(c, (n - 1) as nat)).0
    }
}

proof fn lemma_after(c: CursorModel, rows: Seq<RowModel>, n: nat)
    requires
        n <= rows.len() <= usize::MAX,
    ensures
        after(filtered(c, Ok(rows)).0, n) == (CursorModel {
            pos: n as usize,
            ..filtered(c, Ok(rows)).0
        }),
    decreases n,
{
    if n > 0 {
        lemma_after(c, rows, (n - 1) as nat);
    }
}

/// A scan that went well reads each of its rows once, in order, and then ends.
pub proof fn law_scan_reads_each_row(c: CursorModel, rows: Seq<RowModel>, k: nat, idx: int)
    requires
        k <= rows.len() <= usize::MAX,
        0 <= idx,
    ensures
        ({
            let at = after(filtered(c, Ok(rows)).0, k);
            &&& at_end(at) == (k == rows.len())
            &&& k < rows.len() && idx < rows[k as int].len() ==> cell_at(at, idx) == Ok::<
                CellModel,
                Seq<char>,
            >(rows[k as int][idx])
        }),
{
    lemma_after(c, rows, k);
}

/// A scan that failed is not at its end until a step has been taken, and every cell
/// read before that step gives the exact message.
pub proof fn law_failure_is_told(c: CursorModel, msg: Seq<char>, idx: int)
    ensures
        ({
            let (at, code) = filtered(c, Err(msg));
            &&& code == ResultCode::OK
            &&& !at_end(at)
            &&& cell_at(at, idx) == Err::<CellModel, Seq<char>>(msg)
            &&& advanced(at).1 == ResultCode::Error
            &&& at_end(advanced(at).0)
        }),
{
}

/// Whichever side of a changed row is missing, its cells have the width that the
/// table declares.
pub proof fn law_changed_rows_have_one_width(d: TableDiffModel, from: Seq<char>, to: Seq<char>)
    ensures
        diff_cells_of(d, from, to).len() == 2 * live_columns(d) + 7,
{
}

/// The name of a virtual table gives its user table back.
pub proof fn law_module_names_their_table(table: Seq<char>)
    ensures
        table_in("dolt_constraint_violations_"@ + table) == table,
        table_in("dolt_history_"@ + table) == table,
        table_in("dolt_at_"@ + table) == table,
        table_in("dolt_blame_"@ + table) == table,
        table_in("dolt_diff_"@ + table) == table,
        table_in("dolt_conflicts_"@ + table) == table,
{
    reveal_strlit("dolt_constraint_violations_");
    reveal_strlit("dolt_history_");
    reveal_strlit("dolt_at_");
    reveal_strlit("dolt_blame_");
    reveal_strlit("dolt_diff_");
    reveal_strlit("dolt_conflicts_");
    lemma_behind("dolt_constraint_violations_"@, table);
    lemma_behind("dolt_history_"@, table);
    lemma_behind("dolt_at_"@, table);
    lemma_behind("dolt_blame_"@, table);
    lemma_behind("dolt_diff_"@, table);
    lemma_behind("dolt_conflicts_"@, table);
    lemma_not_behind("dolt_history_"@ + table, "dolt_constraint_violations_"@, 5);
    lemma_not_behind("dolt_at_"@ + table, "dolt_constraint_violations_"@, 5);
    lemma_not_behind("dolt_blame_"@ + table, "dolt_constraint_violations_"@, 5);
    lemma_not_behind("dolt_diff_"@ + table, "dolt_constraint_violations_"@, 5);
    lemma_not_behind("dolt_conflicts_"@ + table, "dolt_constraint_violations_"@, 8);
    lemma_not_behind("dolt_at_"@ + table, "dolt_history_"@, 5);
    lemma_not_behind("dolt_blame_"@ + table, "dolt_history_"@, 5);
    lemma_not_behind("dolt_diff_"@ + table, "dolt_history_"@, 5);
    lemma_not_behind("dolt_conflicts_"@ + table, "dolt_history_"@, 5);
    lemma_not_behind("dolt_blame_"@ + table, "dolt_at_"@, 5);
    lemma_not_behind("dolt_diff_"@ + table, "dolt_at_"@, 5);
    lemma_not_behind("dolt_conflicts_"@ + table, "dolt_at_"@, 5);
    lemma_not_behind("dolt_diff_"@ + table, "dolt_blame_"@, 5);
    lemma_not_behind("dolt_conflicts_"@ + table, "dolt_blame_"@, 5);
    lemma_not_behind("dolt_conflicts_"@ + table, "dolt_diff_"@, 5);
}

proof fn lemma_behind(prefix: Seq<char>, table: Seq<char>)
    ensures
        behind(prefix + table, prefix) == Some(table),
{
    assert((prefix + table).subrange(0, prefix.len() as int) =~= prefix);
    assert((prefix + table).skip(prefix.len() as int) =~= table);
}

proof fn lemma_not_behind(s: Seq<char>, prefix: Seq<char>, i: int)
    requires
        0 <= i < prefix.len(),
        i < s.len(),
        s[i] != prefix[i],
    ensures
        behind(s, prefix) is None,
{
    if crate::text::stands_at(s, prefix, 0) {
        assert(s.subrange(0, prefix.len() as int)[i] == prefix[i]);
    }
}

} // verus!
