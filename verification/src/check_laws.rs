//! What checks say, from the words of an expression to its truth.

use vstd::prelude::*;

use crate::checks::{Scope, Truth};
use crate::values::{CellModel, RowModel, VcValue};

verus! {

// ---------------------------------------------------------------------------
// Operands
// ---------------------------------------------------------------------------

/// Is a word the name of a column: a letter or an underscore first, and not `NULL`?
pub open spec fn is_name(w: Seq<char>) -> bool {
    &&& w.len() > 0
    &&& 'a' <= w[0] <= 'z' || 'A' <= w[0] <= 'Z' || w[0] == '_'
    &&& crate::text::ascii_uppercase(w) != crate::text::ascii_uppercase("NULL"@)
}

/// Is a word the name of a column in which a row has a cell?
pub open spec fn names_cell(w: Seq<char>, s: Scope, cell: CellModel) -> bool {
    &&& is_name(w)
    &&& exists|k: int|
        0 <= k < s.columns.len() && k < s.row.len() && #[trigger] s.columns[k] == w && s.row[k]
            == cell && forall|j: int| 0 <= j < k ==> #[trigger] s.columns[j] != w
}

/// Does a word stand for a cell: `NULL`, a number, a text in quotes, or a column?
pub open spec fn stands_for(w: Seq<char>, s: Scope, cell: CellModel) -> bool {
    match cell {
        VcValue::Null => crate::text::ascii_uppercase(w) == crate::text::ascii_uppercase("NULL"@)
            || names_cell(w, s, cell),
        VcValue::Integer(n) => w == crate::text::decimal_int(n as int) || names_cell(w, s, cell),
        VcValue::Text(t) => (w == seq!['\''] + t + seq!['\''] && !t.contains('\'') && !t.contains(
            '"',
        )) || names_cell(w, s, cell),
        _ => names_cell(w, s, cell),
    }
}

proof fn lemma_null_word(w: Seq<char>)
    requires
        w.len() > 0,
        w[0] != 'N' && w[0] != 'n',
    ensures
        crate::text::ascii_uppercase(w) != crate::text::ascii_uppercase("NULL"@),
{
    reveal_strlit("NULL");
    assert("NULL"@[0] == 'N');
    let a = crate::text::ascii_uppercase(w);
    let b = crate::text::ascii_uppercase("NULL"@);
    assert(a[0] == crate::text::ascii_upper(w[0]));
    assert(b[0] == 'N');
}

proof fn lemma_strip_front(t: Seq<char>)
    requires
        !t.contains('\'') && !t.contains('"'),
    ensures
        crate::checks::strip_back(crate::checks::strip_front(seq!['\''] + t + seq!['\''])) == t,
{
    let w = seq!['\''] + t + seq!['\''];
    let a = t + seq!['\''];
    assert(w.drop_first() =~= a);
    if t.len() > 0 {
        assert(t.contains(t[0]));
        assert(a[0] == t[0]);
        assert(crate::checks::strip_front(a) == a);
        assert(a.drop_last() =~= t);
        assert(t.contains(t.last()));
        assert(crate::checks::strip_back(t) == t);
    } else {
        assert(t =~= seq![]);
        assert(a.drop_first() =~= t);
        reveal_with_fuel(crate::checks::strip_front, 3);
    }
}

/// What a word stands for is the value read from it.
pub proof fn law_words_stand_for_cells(s: Scope, i: int, cell: CellModel)
    requires
        0 <= i < s.toks.len(),
        stands_for(s.toks[i], s, cell),
    ensures
        crate::checks::value_at(s, i) == Some(cell),
{
    let w = s.toks[i];
    if names_cell(w, s, cell) {
        let k = choose|k: int|
            0 <= k < s.columns.len() && k < s.row.len() && #[trigger] s.columns[k] == w && s.row[k]
                == cell && forall|j: int| 0 <= j < k ==> #[trigger] s.columns[j] != w;
        crate::merge::lemma_name_from(s.columns, w, 0);
        assert(crate::merge::column_index(s.columns, w) == Some(k));
        assert(!crate::text::is_digit(w[0]));
        assert(crate::checks::parse_signed(w) is None);
    } else {
        match cell {
            VcValue::Integer(n) => {
                lemma_number_word(n);
            },
            VcValue::Text(t) => {
                assert(w[0] == '\'');
                lemma_null_word(w);
                assert(!crate::text::is_digit(w[0]));
                assert(crate::checks::parse_signed(w) is None);
                assert(w.last() == '\'');
                lemma_strip_front(t);
            },
            _ => {},
        }
    }
}

/// A number in decimal is read as the number.
proof fn lemma_number_word(n: i64)
    ensures
        crate::text::ascii_uppercase(crate::text::decimal_int(n as int))
            != crate::text::ascii_uppercase("NULL"@),
        crate::checks::parse_signed(crate::text::decimal_int(n as int)) == Some(n as int),
{
    let w = crate::text::decimal_int(n as int);
    if n < 0 {
        let body = crate::text::decimal((-n) as nat);
        crate::text::lemma_decimal_reads((-n) as nat, 0x8000_0000_0000_0000);
        assert(w.skip(1) =~= body);
        assert(w[0] == '-');
    } else {
        crate::text::lemma_decimal_reads(n as nat, 0x7fff_ffff_ffff_ffff);
        assert(crate::text::is_digit(w[0]));
    }
    lemma_null_word(w);
}

// ---------------------------------------------------------------------------
// Predicates
// ---------------------------------------------------------------------------

/// Does a word open a predicate, and neither a group nor a negation?
pub open spec fn opens_predicate(w: Seq<char>) -> bool {
    &&& crate::text::ascii_uppercase(w) != crate::text::ascii_uppercase("("@)
    &&& crate::text::ascii_uppercase(w) != crate::text::ascii_uppercase("NOT"@)
}

/// A predicate stands for itself where nothing is around it.
proof fn lemma_single(s: Scope, i: int, t: Truth, j: int)
    requires
        0 <= i < j <= s.toks.len(),
        opens_predicate(s.toks[i]),
        crate::checks::predicate_at(s, i) == Some((t, j)),
    ensures
        crate::checks::not_at(s, i) == Some((t, j)),
        !crate::sql::is_word(s.toks, j, "AND"@) ==> crate::checks::and_at(s, i) == Some((t, j)),
        !crate::sql::is_word(s.toks, j, "AND"@) && !crate::sql::is_word(s.toks, j, "OR"@)
            ==> crate::checks::or_at(s, i) == Some((t, j)),
{
    assert(crate::checks::primary_at(s, i) == Some((t, j)));
    assert(crate::checks::not_at(s, i) == Some((t, j)));
}

/// A whole expression of one predicate is judged as the predicate.
proof fn lemma_only_predicate(expr: Seq<char>, row: RowModel, columns: Seq<Seq<char>>, t: Truth)
    requires
        crate::sql::words(expr).len() > 0,
        opens_predicate(crate::sql::words(expr)[0]),
        ({
            let toks = crate::sql::words(expr);
            crate::checks::predicate_at(Scope { toks, row, columns }, 0) == Some(
                (t, toks.len() as int),
            )
        }),
    ensures
        crate::checks::check_of(expr, row, columns) == Some(t),
{
    let toks = crate::sql::words(expr);
    lemma_single(Scope { toks, row, columns }, 0, t, toks.len() as int);
}

/// A comparison of two operands is judged as the comparison of what they stand for: integers
/// as numbers, and unknown where a side is null.
pub proof fn law_check_compares(
    expr: Seq<char>,
    row: RowModel,
    columns: Seq<Seq<char>>,
    op: Seq<char>,
    a: CellModel,
    b: CellModel,
)
    requires
        ({
            let toks = crate::sql::words(expr);
            let s = Scope { toks, row, columns };
            &&& toks.len() == 3
            &&& opens_predicate(toks[0])
            &&& crate::text::uppercase(toks[1]) == op
            &&& stands_for(toks[0], s, a)
            &&& stands_for(toks[2], s, b)
        }),
        op == "="@ || op == "!="@ || op == "<"@ || op == "<="@ || op == ">"@ || op == ">="@,
    ensures
        a is Null || b is Null ==> crate::checks::check_of(expr, row, columns) == Some(None::<bool>),
        !(a is Null) && !(b is Null) ==> {
            &&& op == "="@ ==> crate::checks::check_of(expr, row, columns) == Some(Some(a == b))
            &&& op == "!="@ ==> crate::checks::check_of(expr, row, columns) == Some(Some(a != b))
        },
        a matches VcValue::Integer(x) ==> (b matches VcValue::Integer(y) ==> {
            &&& op == "<"@ ==> crate::checks::check_of(expr, row, columns) == Some(Some(x < y))
            &&& op == "<="@ ==> crate::checks::check_of(expr, row, columns) == Some(Some(x <= y))
            &&& op == ">"@ ==> crate::checks::check_of(expr, row, columns) == Some(Some(x > y))
            &&& op == ">="@ ==> crate::checks::check_of(expr, row, columns) == Some(Some(x >= y))
        }),
{
    let toks = crate::sql::words(expr);
    let s = Scope { toks, row, columns };
    law_words_stand_for_cells(s, 0, a);
    law_words_stand_for_cells(s, 2, b);
    lemma_only_predicate(expr, row, columns, crate::checks::compared(op, a, b));
    if !(a is Null) && !(b is Null) {
        crate::checks::law_comparisons_go_together(a, b, b);
    }
    if let VcValue::Integer(x) = a {
        if let VcValue::Integer(y) = b {
            crate::checks::law_integers_compare_as_numbers(x, y);
        }
    }
}

proof fn lemma_predicate_words()
    ensures
        !crate::checks::is_comparison("IS"@),
        !crate::checks::is_comparison("LIKE"@),
        !crate::checks::is_comparison("NOT"@),
        !crate::checks::is_comparison("IN"@),
        "IS"@ != "LIKE"@ && "IS"@ != "NOT"@ && "IS"@ != "IN"@ && "LIKE"@ != "NOT"@ && "LIKE"@
            != "IN"@ && "NOT"@ != "IN"@,
        crate::text::ascii_uppercase("NULL"@) != crate::text::ascii_uppercase("NOT"@),
        crate::text::ascii_uppercase("LIKE"@) != crate::text::ascii_uppercase("IN"@),
        crate::text::ascii_uppercase(")"@) != crate::text::ascii_uppercase(","@),
        crate::text::ascii_uppercase("AND"@) != crate::text::ascii_uppercase("OR"@),
        crate::text::ascii_uppercase(")"@) != crate::text::ascii_uppercase("AND"@),
        crate::text::ascii_uppercase(")"@) != crate::text::ascii_uppercase("OR"@),
        crate::text::ascii_uppercase("NOT"@) != crate::text::ascii_uppercase("("@),
{
    reveal_strlit("IS");
    reveal_strlit("LIKE");
    reveal_strlit("NOT");
    reveal_strlit("IN");
    reveal_strlit("NULL");
    reveal_strlit("AND");
    reveal_strlit("OR");
    reveal_strlit("(");
    reveal_strlit(")");
    reveal_strlit(",");
    reveal_strlit("=");
    reveal_strlit("==");
    reveal_strlit("!=");
    reveal_strlit("<>");
    reveal_strlit("<");
    reveal_strlit("<=");
    reveal_strlit(">");
    reveal_strlit(">=");
    assert("="@[0] == '=' && "=="@[0] == '=' && "!="@[0] == '!' && "<>"@[0] == '<' && "<"@[0] == '<'
        && "<="@[0] == '<' && ">"@[0] == '>' && ">="@[0] == '>');
    assert("IS"@[0] == 'I' && "LIKE"@[0] == 'L' && "NOT"@[0] == 'N' && "IN"@[0] == 'I');
    assert("IS"@[1] == 'S' && "IN"@[1] == 'N');
    assert(crate::text::ascii_uppercase("NULL"@)[1] == 'U');
    assert(crate::text::ascii_uppercase("NOT"@)[1] == 'O');
    assert(crate::text::ascii_uppercase("NOT"@)[0] == 'N');
    assert(crate::text::ascii_uppercase("("@)[0] == '(');
    assert(crate::text::ascii_uppercase("LIKE"@)[0] == 'L');
    assert(crate::text::ascii_uppercase("IN"@)[0] == 'I');
    assert(crate::text::ascii_uppercase(")"@)[0] == ')');
    assert(crate::text::ascii_uppercase(","@)[0] == ',');
    assert(crate::text::ascii_uppercase("AND"@)[0] == 'A');
    assert(crate::text::ascii_uppercase("OR"@)[0] == 'O');
}

/// `IS NULL` is true exactly of null, and `IS NOT NULL` of everything else.
pub proof fn law_check_tells_nulls(
    expr: Seq<char>,
    row: RowModel,
    columns: Seq<Seq<char>>,
    a: CellModel,
)
    requires
        ({
            let toks = crate::sql::words(expr);
            let s = Scope { toks, row, columns };
            &&& toks.len() == 3 || toks.len() == 4
            &&& opens_predicate(toks[0])
            &&& stands_for(toks[0], s, a)
            &&& crate::text::uppercase(toks[1]) == "IS"@
            &&& toks.len() == 4 ==> crate::sql::is_word(toks, 2, "NOT"@)
            &&& crate::sql::is_word(toks, toks.len() - 1, "NULL"@)
        }),
    ensures
        crate::checks::check_of(expr, row, columns) == Some(
            Some(
                if crate::sql::words(expr).len() == 3 {
                    a is Null
                } else {
                    !(a is Null)
                },
            ),
        ),
{
    let toks = crate::sql::words(expr);
    let s = Scope { toks, row, columns };
    lemma_predicate_words();
    law_words_stand_for_cells(s, 0, a);
    lemma_only_predicate(
        expr,
        row,
        columns,
        Some(
            if toks.len() == 3 {
                a is Null
            } else {
                !(a is Null)
            },
        ),
    );
}

/// `LIKE` is true of the texts that match the pattern, `NOT LIKE` of those that do not.
pub proof fn law_check_matches_patterns(
    expr: Seq<char>,
    row: RowModel,
    columns: Seq<Seq<char>>,
    t: Seq<char>,
    p: Seq<char>,
)
    requires
        ({
            let toks = crate::sql::words(expr);
            let s = Scope { toks, row, columns };
            &&& toks.len() == 3 || toks.len() == 4
            &&& opens_predicate(toks[0])
            &&& stands_for(toks[0], s, VcValue::Text(t))
            &&& stands_for(toks.last(), s, VcValue::Text(p))
            &&& toks.len() == 3 ==> crate::text::uppercase(toks[1]) == "LIKE"@
            &&& toks.len() == 4 ==> crate::text::uppercase(toks[1]) == "NOT"@
                && crate::sql::is_word(toks, 2, "LIKE"@)
        }),
    ensures
        crate::checks::check_of(expr, row, columns) == Some(
            Some(crate::checks::is_like(t, p) == (crate::sql::words(expr).len() == 3)),
        ),
{
    let toks = crate::sql::words(expr);
    let s = Scope { toks, row, columns };
    lemma_predicate_words();
    law_words_stand_for_cells(s, 0, VcValue::Text(t));
    law_words_stand_for_cells(s, toks.len() - 1, VcValue::Text(p));
    lemma_only_predicate(
        expr,
        row,
        columns,
        Some(crate::checks::is_like(t, p) == (toks.len() == 3)),
    );
}

/// Is there a list of members from a place on: operands with commas between them, and a
/// closing parenthesis as the last word?
pub open spec fn lists(s: Scope, at: int, cells: Seq<CellModel>) -> bool {
    &&& cells.len() > 0
    &&& s.toks.len() == at + 2 * cells.len()
    &&& crate::sql::is_word(s.toks, s.toks.len() - 1, ")"@)
    &&& forall|k: int|
        0 <= k < cells.len() ==> stands_for(s.toks[at + 2 * k], s, #[trigger] cells[k])
    &&& forall|k: int|
        0 <= k < cells.len() - 1 ==> #[trigger] crate::sql::is_word(s.toks, at + 2 * k + 1, ","@)
}

/// The members of a list are read one after another.
proof fn lemma_members(s: Scope, at: int, cells: Seq<CellModel>, k: int, got: Seq<crate::checks::OperandModel>)
    requires
        0 <= at,
        lists(s, at, cells),
        0 <= k < cells.len(),
        got.len() == k,
        forall|j: int|
            0 <= j < k ==> crate::checks::value_in(s, #[trigger] got[j]) == Some(cells[j]),
    ensures
        crate::checks::members_at(s, at + 2 * k, got) matches Some((members, end)) && {
            &&& end == s.toks.len() - 1
            &&& members.len() == cells.len()
            &&& forall|j: int|
                0 <= j < cells.len() ==> crate::checks::value_in(s, #[trigger] members[j]) == Some(
                    cells[j],
                )
        },
    decreases cells.len() - k,
{
    lemma_predicate_words();
    assert(stands_for(s.toks[at + 2 * k], s, cells[k]));
    law_words_stand_for_cells(s, at + 2 * k, cells[k]);
    let v = crate::checks::operand_of(s.toks[at + 2 * k]);
    let next = got.push(v);
    assert forall|j: int| 0 <= j < k + 1 implies crate::checks::value_in(s, #[trigger] next[j])
        == Some(cells[j]) by {
        if j < k {
            assert(next[j] == got[j]);
        }
    }
    if k + 1 < cells.len() {
        assert(crate::sql::is_word(s.toks, at + 2 * k + 1, ","@));
        lemma_members(s, at, cells, k + 1, next);
    } else {
        assert(at + 2 * k + 1 == s.toks.len() - 1);
        assert(!crate::sql::is_word(s.toks, at + 2 * k + 1, ","@));
    }
}

/// `IN` is true exactly of the members of the list and `NOT IN` of everything else; both
/// are unknown of null.
pub proof fn law_check_tells_members(
    expr: Seq<char>,
    row: RowModel,
    columns: Seq<Seq<char>>,
    a: CellModel,
    cells: Seq<CellModel>,
    not: bool,
)
    requires
        ({
            let toks = crate::sql::words(expr);
            let s = Scope { toks, row, columns };
            let at = if not {
                3int
            } else {
                2int
            };
            &&& lists(s, at + 1, cells)
            &&& opens_predicate(toks[0])
            &&& stands_for(toks[0], s, a)
            &&& not ==> crate::text::uppercase(toks[1]) == "NOT"@ && crate::sql::is_word(
                toks,
                2,
                "IN"@,
            )
            &&& !not ==> crate::text::uppercase(toks[1]) == "IN"@
            &&& crate::sql::is_word(toks, at, "("@)
        }),
    ensures
        crate::checks::check_of(expr, row, columns) == Some(
            if a is Null {
                None
            } else {
                Some(cells.contains(a) != not)
            },
        ),
{
    let toks = crate::sql::words(expr);
    let s = Scope { toks, row, columns };
    let at = if not {
        3int
    } else {
        2int
    };
    lemma_predicate_words();
    law_words_stand_for_cells(s, 0, a);
    let none = Seq::<crate::checks::OperandModel>::empty();
    lemma_members(s, at + 1, cells, 0, none);
    assert(crate::checks::members_at(s, at + 1, none) is Some);
    let (members, end) = crate::checks::members_at(s, at + 1, none)->0;
    if !(a is Null) {
        if cells.contains(a) {
            let k = choose|k: int| 0 <= k < cells.len() && cells[k] == a;
            assert(crate::checks::value_in(s, members[k]) == Some(a));
        }
        assert(crate::checks::among(s, a, members) == Some(cells.contains(a)));
    }
    lemma_only_predicate(
        expr,
        row,
        columns,
        if a is Null {
            None
        } else {
            Some(cells.contains(a) != not)
        },
    );
}

// ---------------------------------------------------------------------------
// Connectives
// ---------------------------------------------------------------------------

/// Is the truth of a whole expression true exactly if `yes`, and false exactly if `no`?
pub open spec fn judged(s: Scope, yes: bool, no: bool) -> bool {
    crate::checks::or_at(s, 0) matches Some((t, end)) && {
        &&& end == s.toks.len()
        &&& t == Some(true) <==> yes
        &&& t == Some(false) <==> no
    }
}

/// `AND` binds closer than `OR`, on either side of it.
pub proof fn law_and_binds_closer_than_or(s: Scope, a: Truth, b: Truth, c: Truth, m: int, n: int)
    requires
        0 < m < n < s.toks.len(),
        m + 1 < n && n + 1 < s.toks.len(),
        opens_predicate(s.toks[0]) && opens_predicate(s.toks[m + 1]) && opens_predicate(
            s.toks[n + 1],
        ),
        crate::checks::predicate_at(s, 0) == Some((a, m)),
        crate::checks::predicate_at(s, m + 1) == Some((b, n)),
        crate::checks::predicate_at(s, n + 1) == Some((c, s.toks.len() as int)),
    ensures
        crate::sql::is_word(s.toks, m, "OR"@) && crate::sql::is_word(s.toks, n, "AND"@) ==> judged(
            s,
            a == Some(true) || (b == Some(true) && c == Some(true)),
            a == Some(false) && (b == Some(false) || c == Some(false)),
        ),
        crate::sql::is_word(s.toks, m, "AND"@) && crate::sql::is_word(s.toks, n, "OR"@) ==> judged(
            s,
            (a == Some(true) && b == Some(true)) || c == Some(true),
            (a == Some(false) || b == Some(false)) && c == Some(false),
        ),
        crate::sql::is_word(s.toks, m, "AND"@) && crate::sql::is_word(s.toks, n, "AND"@) ==> judged(
            s,
            a == Some(true) && b == Some(true) && c == Some(true),
            a == Some(false) || b == Some(false) || c == Some(false),
        ),
        crate::sql::is_word(s.toks, m, "OR"@) && crate::sql::is_word(s.toks, n, "OR"@) ==> judged(
            s,
            a == Some(true) || b == Some(true) || c == Some(true),
            a == Some(false) && b == Some(false) && c == Some(false),
        ),
{
    lemma_predicate_words();
    let end = s.toks.len() as int;
    lemma_single(s, 0, a, m);
    lemma_single(s, m + 1, b, n);
    lemma_single(s, n + 1, c, end);
    if crate::sql::is_word(s.toks, m, "OR"@) && crate::sql::is_word(s.toks, n, "AND"@) {
        let bc = crate::checks::both(b, c);
        assert(crate::checks::and_rest(s, bc, end) == Some((bc, end)));
        assert(crate::checks::and_rest(s, b, n) == Some((bc, end)));
        assert(crate::checks::and_at(s, m + 1) == Some((bc, end)));
        let all = crate::checks::either(a, bc);
        assert(crate::checks::or_rest(s, all, end) == Some((all, end)));
        assert(crate::checks::or_rest(s, a, m) == Some((all, end)));
        assert(crate::checks::or_at(s, 0) == Some((all, end)));
    }
    if crate::sql::is_word(s.toks, m, "AND"@) && crate::sql::is_word(s.toks, n, "OR"@) {
        let ab = crate::checks::both(a, b);
        assert(crate::checks::and_rest(s, ab, n) == Some((ab, n)));
        assert(crate::checks::and_rest(s, a, m) == Some((ab, n)));
        assert(crate::checks::and_at(s, 0) == Some((ab, n)));
        let all = crate::checks::either(ab, c);
        assert(crate::checks::or_rest(s, all, end) == Some((all, end)));
        assert(crate::checks::or_rest(s, ab, n) == Some((all, end)));
        assert(crate::checks::or_at(s, 0) == Some((all, end)));
    }
    if crate::sql::is_word(s.toks, m, "AND"@) && crate::sql::is_word(s.toks, n, "AND"@) {
        let ab = crate::checks::both(a, b);
        let all = crate::checks::both(ab, c);
        assert(crate::checks::and_rest(s, all, end) == Some((all, end)));
        assert(crate::checks::and_rest(s, ab, n) == Some((all, end)));
        assert(crate::checks::and_rest(s, a, m) == Some((all, end)));
        assert(crate::checks::and_at(s, 0) == Some((all, end)));
        assert(crate::checks::or_at(s, 0) == Some((all, end)));
    }
    if crate::sql::is_word(s.toks, m, "OR"@) && crate::sql::is_word(s.toks, n, "OR"@) {
        let ab = crate::checks::either(a, b);
        let all = crate::checks::either(ab, c);
        assert(crate::checks::or_rest(s, all, end) == Some((all, end)));
        assert(crate::checks::or_rest(s, ab, n) == Some((all, end)));
        assert(crate::checks::or_rest(s, a, m) == Some((all, end)));
        assert(crate::checks::or_at(s, 0) == Some((all, end)));
    }
}

/// `NOT` negates the predicate behind it alone.
pub proof fn law_not_binds_closest(s: Scope, a: Truth, b: Truth, m: int)
    requires
        1 < m < s.toks.len() - 1,
        crate::sql::is_word(s.toks, 0, "NOT"@),
        opens_predicate(s.toks[1]) && opens_predicate(s.toks[m + 1]),
        crate::checks::predicate_at(s, 1) == Some((a, m)),
        crate::checks::predicate_at(s, m + 1) == Some((b, s.toks.len() as int)),
    ensures
        crate::sql::is_word(s.toks, m, "AND"@) ==> judged(
            s,
            a == Some(false) && b == Some(true),
            a == Some(true) || b == Some(false),
        ),
        crate::sql::is_word(s.toks, m, "OR"@) ==> judged(
            s,
            a == Some(false) || b == Some(true),
            a == Some(true) && b == Some(false),
        ),
{
    lemma_predicate_words();
    let end = s.toks.len() as int;
    lemma_single(s, 1, a, m);
    lemma_single(s, m + 1, b, end);
    let na = crate::checks::negated(a);
    assert(crate::checks::not_at(s, 0) == Some((na, m)));
    if crate::sql::is_word(s.toks, m, "AND"@) {
        let all = crate::checks::both(na, b);
        assert(crate::checks::and_rest(s, all, end) == Some((all, end)));
        assert(crate::checks::and_rest(s, na, m) == Some((all, end)));
        assert(crate::checks::and_at(s, 0) == Some((all, end)));
        assert(crate::checks::or_at(s, 0) == Some((all, end)));
    }
    if crate::sql::is_word(s.toks, m, "OR"@) {
        let all = crate::checks::either(na, b);
        assert(crate::checks::and_rest(s, na, m) == Some((na, m)));
        assert(crate::checks::and_at(s, 0) == Some((na, m)));
        assert(crate::checks::or_rest(s, all, end) == Some((all, end)));
        assert(crate::checks::or_rest(s, na, m) == Some((all, end)));
        assert(crate::checks::or_at(s, 0) == Some((all, end)));
    }
}

/// Parentheses group: an `OR` within them is judged before an `AND` behind them.
pub proof fn law_parentheses_group(s: Scope, a: Truth, b: Truth, c: Truth, m: int, n: int)
    requires
        1 < m && m + 1 < n && n + 2 < s.toks.len(),
        crate::sql::is_word(s.toks, 0, "("@),
        crate::sql::is_word(s.toks, m, "OR"@),
        crate::sql::is_word(s.toks, n, ")"@),
        crate::sql::is_word(s.toks, n + 1, "AND"@),
        opens_predicate(s.toks[1]) && opens_predicate(s.toks[m + 1]) && opens_predicate(
            s.toks[n + 2],
        ),
        crate::checks::predicate_at(s, 1) == Some((a, m)),
        crate::checks::predicate_at(s, m + 1) == Some((b, n)),
        crate::checks::predicate_at(s, n + 2) == Some((c, s.toks.len() as int)),
    ensures
        judged(
            s,
            (a == Some(true) || b == Some(true)) && c == Some(true),
            (a == Some(false) && b == Some(false)) || c == Some(false),
        ),
{
    lemma_predicate_words();
    let end = s.toks.len() as int;
    lemma_single(s, 1, a, m);
    lemma_single(s, m + 1, b, n);
    lemma_single(s, n + 2, c, end);
    let ab = crate::checks::either(a, b);
    assert(crate::checks::or_rest(s, ab, n) == Some((ab, n)));
    assert(crate::checks::or_rest(s, a, m) == Some((ab, n)));
    assert(crate::checks::or_at(s, 1) == Some((ab, n)));
    assert(crate::checks::primary_at(s, 0) == Some((ab, n + 1)));
    assert(crate::checks::not_at(s, 0) == Some((ab, n + 1)));
    let all = crate::checks::both(ab, c);
    assert(crate::checks::and_rest(s, all, end) == Some((all, end)));
    assert(crate::checks::and_rest(s, ab, n + 1) == Some((all, end)));
    assert(crate::checks::and_at(s, 0) == Some((all, end)));
    assert(crate::checks::or_at(s, 0) == Some((all, end)));
}

/// An expression with words behind it is no expression, and one that can be read to its
/// end is judged as it was read.
pub proof fn law_check_reads_all_words(expr: Seq<char>, row: RowModel, columns: Seq<Seq<char>>)
    ensures
        ({
            let toks = crate::sql::words(expr);
            match crate::checks::or_at(Scope { toks, row, columns }, 0) {
                Some((t, end)) => if end == toks.len() {
                    crate::checks::check_of(expr, row, columns) == Some(t)
                } else {
                    crate::checks::check_of(expr, row, columns) is None
                },
                None => crate::checks::check_of(expr, row, columns) is None,
            }
        }),
{
}

// ---------------------------------------------------------------------------
// Patterns
// ---------------------------------------------------------------------------

proof fn lemma_like_shift(t: Seq<char>, p: Seq<char>, ti: int, pi: int, a: int, b: int)
    requires
        0 <= a <= ti <= t.len(),
        0 <= b <= pi <= p.len(),
    ensures
        crate::checks::like_from(t, p, ti, pi) == crate::checks::like_from(
            t.skip(a),
            p.skip(b),
            ti - a,
            pi - b,
        ),
    decreases p.len() - pi, t.len() - ti,
{
    if pi < p.len() {
        assert(p.skip(b)[pi - b] == p[pi]);
        if p[pi] == '%' {
            lemma_like_shift(t, p, ti, pi + 1, a, b);
            if ti < t.len() {
                lemma_like_shift(t, p, ti + 1, pi, a, b);
            }
        } else if ti < t.len() {
            assert(t.skip(a)[ti - a] == t[ti]);
            lemma_like_shift(t, p, ti + 1, pi + 1, a, b);
        }
    }
}

/// A run mark before a pattern matches what some part of the text, taken from its front,
/// leaves to the pattern.
proof fn lemma_like_run(t: Seq<char>, p: Seq<char>, ti: int)
    requires
        p.len() > 0 && p[0] == '%',
        0 <= ti <= t.len(),
    ensures
        crate::checks::like_from(t, p, ti, 0) <==> exists|k: int|
            ti <= k <= t.len() && #[trigger] crate::checks::is_like(t.skip(k), p.skip(1)),
    decreases t.len() - ti,
{
    lemma_like_shift(t, p, ti, 1, ti, 1);
    assert(crate::checks::like_from(t, p, ti, 1) == crate::checks::is_like(t.skip(ti), p.skip(1)));
    if ti < t.len() {
        lemma_like_run(t, p, ti + 1);
        if crate::checks::like_from(t, p, ti + 1, 0) {
            let k = choose|k: int|
                ti + 1 <= k <= t.len() && #[trigger] crate::checks::is_like(t.skip(k), p.skip(1));
            assert(crate::checks::is_like(t.skip(k), p.skip(1)));
        }
        if exists|k: int|
            ti <= k <= t.len() && #[trigger] crate::checks::is_like(t.skip(k), p.skip(1)) {
            let k = choose|k: int|
                ti <= k <= t.len() && #[trigger] crate::checks::is_like(t.skip(k), p.skip(1));
            if k > ti {
                assert(crate::checks::like_from(t, p, ti + 1, 0));
            }
        }
    }
}

/// What a pattern matches: an empty one the empty text; `%` and a pattern any run of
/// characters and what the pattern matches; `_` and a pattern one character and what the
/// pattern matches; any other character itself and what the pattern matches.
pub proof fn law_patterns_match(t: Seq<char>, c: char, p: Seq<char>)
    ensures
        crate::checks::is_like(t, seq![]) <==> t.len() == 0,
        crate::checks::is_like(t, seq!['%'] + p) <==> exists|k: int|
            0 <= k <= t.len() && #[trigger] crate::checks::is_like(t.skip(k), p),
        crate::checks::is_like(t, seq!['_'] + p) <==> t.len() > 0 && crate::checks::is_like(
            t.skip(1),
            p,
        ),
        c != '%' && c != '_' ==> (crate::checks::is_like(t, seq![c] + p) <==> t.len() > 0 && t[0]
            == c && crate::checks::is_like(t.skip(1), p)),
{
    let run = seq!['%'] + p;
    assert(run.skip(1) =~= p);
    lemma_like_run(t, run, 0);
    let one = seq!['_'] + p;
    assert(one.skip(1) =~= p);
    let plain = seq![c] + p;
    assert(plain.skip(1) =~= p);
    if t.len() > 0 {
        lemma_like_shift(t, one, 1, 1, 1, 1);
        lemma_like_shift(t, plain, 1, 1, 1, 1);
    }
}

} // verus!
