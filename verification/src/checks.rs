//! The evaluator of stored `CHECK` expressions.
//!
//! The language has `=`, `==`, `!=`, `<>`, `<`, `<=`, `>`, `>=`, `IS [NOT] NULL`,
//! `[NOT] LIKE`, `[NOT] IN`, `AND`, `OR`, `NOT` and parentheses over the columns
//! of one row and literals. Truth has three values: `None` is unknown.

use vstd::prelude::*;

use crate::merge::find_column;
use crate::octets::Order;
use crate::sql::{tokenize, word_is};
use crate::text::{chars_of, read_unsigned, str_eq, string_of, upper, Dup, Same};
use crate::values::{cell_order, CellModel, RowModel, VcRow, VcValue};

verus! {

broadcast use crate::text::lemma_bytes_deep_view;

/// True, false or unknown.
pub type Truth = Option<bool>;

/// An operand, over the types of a cell and of a name.
pub enum Operand<C = VcValue, S = String> {
    Null,
    Literal(C),
    Column(S),
}

/// What an operand stands for.
pub type OperandModel = Operand<CellModel, Seq<char>>;

impl DeepView for Operand {
    type V = OperandModel;

    open spec fn deep_view(&self) -> OperandModel {
        match *self {
            Operand::Null => Operand::Null,
            Operand::Literal(v) => Operand::Literal(v.deep_view()),
            Operand::Column(s) => Operand::Column(s@),
        }
    }
}

// ---------------------------------------------------------------------------
// Values
// ---------------------------------------------------------------------------

/// Read a signed 64-bit number.
pub open spec fn parse_signed(s: Seq<char>) -> Option<int> {
    if s.len() > 0 && s[0] == '-' {
        let body = s.skip(1);
        if crate::text::all_digits(body) && crate::text::digits_value(body)
            <= 0x8000_0000_0000_0000 {
            Some(-crate::text::digits_value(body))
        } else {
            None
        }
    } else {
        match crate::text::parse_unsigned(s, 0x7fff_ffff_ffff_ffff) {
            Some(n) => Some(n as int),
            None => None,
        }
    }
}

/// Read a signed 64-bit number.
pub fn read_signed(s: &str) -> (r: Option<i64>)
    ensures
        match r {
            Some(n) => parse_signed(s@) == Some(n as int),
            None => parse_signed(s@) is None,
        },
{
    let v = chars_of(s);
    if v.len() > 0 && v[0] == '-' {
        let body = string_of(&v, 1, v.len());
        assert(body@ =~= s@.skip(1));
        if v.len() > 1 && v[1] == '+' {
            assert(!crate::text::is_digit(body@[0]));
            return None;
        }
        match read_unsigned(body.as_str(), 0x8000_0000_0000_0000) {
            Some(n) => if n == 0x8000_0000_0000_0000 {
                Some(i64::MIN)
            } else {
                Some(-(n as i64))
            },
            None => None,
        }
    } else {
        match read_unsigned(s, 0x7fff_ffff_ffff_ffff) {
            Some(n) => Some(n as i64),
            None => None,
        }
    }
}

/// Is `c` a quote mark of a text literal?
pub open spec fn is_quote(c: char) -> bool {
    c == '\'' || c == '"'
}

/// Is `s` inside quote marks?
pub open spec fn is_literal(s: Seq<char>) -> bool {
    s.len() > 0 && is_quote(s[0]) && s.last() == s[0]
}

/// `s` without the quote marks in front of it.
pub open spec fn strip_front(s: Seq<char>) -> Seq<char>
    decreases s.len(),
{
    if s.len() > 0 && is_quote(s[0]) {
        strip_front(s.drop_first())
    } else {
        s
    }
}

/// `s` without the quote marks behind it.
pub open spec fn strip_back(s: Seq<char>) -> Seq<char>
    decreases s.len(),
{
    if s.len() > 0 && is_quote(s.last()) {
        strip_back(s.drop_last())
    } else {
        s
    }
}

/// The operand that a word stands for.
pub open spec fn operand_of(w: Seq<char>) -> OperandModel {
    if crate::text::ascii_uppercase(w) == crate::text::ascii_uppercase("NULL"@) {
        Operand::Null
    } else {
        match parse_signed(w) {
            Some(n) => Operand::Literal(VcValue::Integer(n as i64)),
            None => if is_literal(w) {
                Operand::Literal(VcValue::Text(strip_back(strip_front(w))))
            } else {
                Operand::Column(w)
            },
        }
    }
}

fn quote_mark(c: char) -> (r: bool)
    ensures
        r == is_quote(c),
{
    c == '\'' || c == '"'
}

/// The text without the quote marks around it.
fn strip_quotes(v: &Vec<char>) -> (r: String)
    ensures
        r@ == strip_back(strip_front(v@)),
{
    let ghost s = v@;
    let mut a: usize = 0;
    assert(s.skip(0) =~= s);
    while a < v.len() && quote_mark(v[a])
        invariant
            a <= v@.len(),
            s == v@,
            strip_front(s.skip(a as int)) == strip_front(s),
        decreases v.len() - a,
    {
        assert(s.skip(a as int)[0] == s[a as int]);
        assert(s.skip(a as int).drop_first() =~= s.skip(a + 1));
        a = a + 1;
    }
    assert(a < s.len() ==> s.skip(a as int)[0] == s[a as int]);
    let ghost f = strip_front(s);
    assert(f == s.skip(a as int));
    let mut b: usize = v.len();
    assert(s.subrange(a as int, b as int) =~= f);
    while b > a && quote_mark(v[b - 1])
        invariant
            a <= b <= v@.len(),
            s == v@,
            strip_back(s.subrange(a as int, b as int)) == strip_back(f),
        decreases b - a,
    {
        assert(s.subrange(a as int, b as int).last() == s[b - 1]);
        assert(s.subrange(a as int, b as int).drop_last() =~= s.subrange(a as int, b - 1));
        b = b - 1;
    }
    assert(b > a ==> s.subrange(a as int, b as int).last() == s[b - 1]);
    string_of(v, a, b)
}

/// The operand that a word stands for.
fn read_operand(w: &String) -> (r: Operand)
    ensures
        r.deep_view() == operand_of(w@),
{
    if crate::text::eq_ignore_case(w.as_str(), "NULL") {
        return Operand::Null;
    }
    if let Some(n) = read_signed(w.as_str()) {
        return Operand::Literal(VcValue::Integer(n));
    }
    let v = chars_of(w.as_str());
    if v.len() > 0 && quote_mark(v[0]) && v[v.len() - 1] == v[0] {
        return Operand::Literal(VcValue::Text(strip_quotes(&v)));
    }
    Operand::Column(w.clone())
}

// ---------------------------------------------------------------------------
// Operators
// ---------------------------------------------------------------------------

/// `NOT` over three values.
pub open spec fn negated(a: Truth) -> Truth {
    match a {
        Some(b) => Some(!b),
        None => None,
    }
}

/// `AND` over three values.
pub open spec fn both(a: Truth, b: Truth) -> Truth {
    if a == Some(false) || b == Some(false) {
        Some(false)
    } else if a == Some(true) && b == Some(true) {
        Some(true)
    } else {
        None
    }
}

/// `OR` over three values.
pub open spec fn either(a: Truth, b: Truth) -> Truth {
    negated(both(negated(a), negated(b)))
}

fn not_of(a: Truth) -> (r: Truth)
    ensures
        r == negated(a),
{
    match a {
        Some(b) => Some(!b),
        None => None,
    }
}

fn bool_and(a: Truth, b: Truth) -> (r: Truth)
    ensures
        r == both(a, b),
{
    match (a, b) {
        (Some(false), _) => Some(false),
        (_, Some(false)) => Some(false),
        (Some(true), Some(true)) => Some(true),
        _ => None,
    }
}

fn bool_or(a: Truth, b: Truth) -> (r: Truth)
    ensures
        r == either(a, b),
{
    match (a, b) {
        (Some(true), _) => Some(true),
        (_, Some(true)) => Some(true),
        (Some(false), Some(false)) => Some(false),
        _ => None,
    }
}

/// Is `op` a comparison?
pub open spec fn is_comparison(op: Seq<char>) -> bool {
    op == "="@ || op == "=="@ || op == "!="@ || op == "<>"@ || op == "<"@ || op == "<="@ || op
        == ">"@ || op == ">="@
}

/// What a comparison gives; unknown where a side is null.
pub open spec fn compared(op: Seq<char>, a: CellModel, b: CellModel) -> Truth {
    if a is Null || b is Null {
        None
    } else if op == "="@ || op == "=="@ {
        Some(a == b)
    } else if op == "!="@ || op == "<>"@ {
        Some(a != b)
    } else if op == "<"@ {
        Some(crate::values::cell_lt(a, b))
    } else if op == "<="@ {
        Some(!crate::values::cell_lt(b, a))
    } else if op == ">"@ {
        Some(crate::values::cell_lt(b, a))
    } else {
        Some(!crate::values::cell_lt(a, b))
    }
}

fn is_comparison_word(op: &str) -> (r: bool)
    ensures
        r == is_comparison(op@),
{
    str_eq(op, "=") || str_eq(op, "==") || str_eq(op, "!=") || str_eq(op, "<>") || str_eq(op, "<")
        || str_eq(op, "<=") || str_eq(op, ">") || str_eq(op, ">=")
}

fn compare_values(op: &str, a: &VcValue, b: &VcValue) -> (r: Truth)
    ensures
        r == compared(op@, a.deep_view(), b.deep_view()),
{
    if matches!(a, VcValue::Null) || matches!(b, VcValue::Null) {
        return None;
    }
    let order = cell_order(a, b);
    if str_eq(op, "=") || str_eq(op, "==") {
        Some(order == Order::Equal)
    } else if str_eq(op, "!=") || str_eq(op, "<>") {
        Some(order != Order::Equal)
    } else if str_eq(op, "<") {
        Some(order == Order::Before)
    } else if str_eq(op, "<=") {
        Some(order != Order::After)
    } else if str_eq(op, ">") {
        Some(order == Order::After)
    } else {
        Some(order != Order::Before)
    }
}

/// Does the text from `ti` on match the pattern from `pi` on? `%` matches any
/// run and `_` matches one character.
pub open spec fn like_from(t: Seq<char>, p: Seq<char>, ti: int, pi: int) -> bool
    decreases p.len() - pi, t.len() - ti,
{
    if pi >= p.len() {
        ti >= t.len()
    } else if p[pi] == '%' {
        like_from(t, p, ti, pi + 1) || (ti < t.len() && like_from(t, p, ti + 1, pi))
    } else {
        ti < t.len() && (p[pi] == '_' || t[ti] == p[pi]) && like_from(t, p, ti + 1, pi + 1)
    }
}

/// Does a text match a `LIKE` pattern?
pub open spec fn is_like(t: Seq<char>, p: Seq<char>) -> bool {
    like_from(t, p, 0, 0)
}

/// One column of the match table: the matches from `pi` on, from those from the
/// place behind it.
fn like_column(t: &Vec<char>, p: &Vec<char>, pi: usize, next: &Vec<bool>) -> (r: Vec<bool>)
    requires
        pi < p@.len(),
        next@.len() == t@.len() + 1,
        forall|k: int| 0 <= k <= t@.len() ==> #[trigger] next@[k] == like_from(t@, p@, k, pi + 1),
    ensures
        r@.len() == t@.len() + 1,
        forall|k: int| 0 <= k <= t@.len() ==> #[trigger] r@[k] == like_from(t@, p@, k, pi as int),
{
    let mut r: Vec<bool> = next.clone();
    let c = p[pi];
    let mut i: usize = t.len();
    // At the end of the text only a run mark can still match.
    r.set(i, c == '%' && next[i]);
    while i > 0
        invariant
            i <= t@.len(),
            pi < p@.len(),
            c == p@[pi as int],
            next@.len() == t@.len() + 1,
            r@.len() == t@.len() + 1,
            forall|k: int|
                0 <= k <= t@.len() ==> #[trigger] next@[k] == like_from(t@, p@, k, pi + 1),
            forall|k: int|
                i <= k <= t@.len() ==> #[trigger] r@[k] == like_from(t@, p@, k, pi as int),
        decreases i,
    {
        let k = i;
        i = i - 1;
        let here = if c == '%' {
            next[i] || r[k]
        } else {
            (c == '_' || t[i] == c) && next[k]
        };
        r.set(i, here);
    }
    r
}

/// The match table's first cell, filled from the back.
fn simple_like(text: &str, pattern: &str) -> (r: bool)
    ensures
        r == is_like(text@, pattern@),
{
    let t = chars_of(text);
    let p = chars_of(pattern);
    let mut row: Vec<bool> = Vec::new();
    let mut k: usize = 0;
    while k < t.len()
        invariant
            k <= t@.len(),
            row@.len() == k,
            forall|j: int|
                0 <= j < k ==> #[trigger] row@[j] == like_from(t@, p@, j, p@.len() as int),
        decreases t.len() - k,
    {
        row.push(false);
        k = k + 1;
    }
    row.push(true);
    let mut pi: usize = p.len();
    while pi > 0
        invariant
            pi <= p@.len(),
            row@.len() == t@.len() + 1,
            forall|j: int|
                0 <= j <= t@.len() ==> #[trigger] row@[j] == like_from(t@, p@, j, pi as int),
        decreases pi,
    {
        pi = pi - 1;
        row = like_column(&t, &p, pi, &row);
    }
    row[0]
}

/// What `LIKE` gives: no answer where the pattern is no text, unknown where the
/// left side is none.
pub open spec fn liked(a: CellModel, b: CellModel) -> Option<Truth> {
    match b {
        VcValue::Text(p) => match a {
            VcValue::Text(t) => Some(Some(is_like(t, p))),
            _ => Some(None),
        },
        _ => None,
    }
}

fn like_values(left: &VcValue, right: &VcValue) -> (r: Option<Truth>)
    ensures
        r == liked(left.deep_view(), right.deep_view()),
{
    match right {
        VcValue::Text(p) => match left {
            VcValue::Text(t) => Some(Some(simple_like(t.as_str(), p.as_str()))),
            _ => Some(None),
        },
        _ => None,
    }
}

// ---------------------------------------------------------------------------
// Expressions
// ---------------------------------------------------------------------------

/// What an expression is read from.
pub struct Scope {
    pub toks: Seq<Seq<char>>,
    pub row: RowModel,
    pub columns: Seq<Seq<char>>,
}

/// The operand at `i`; the place behind it is the next one.
pub open spec fn operand_at(s: Scope, i: int) -> Option<OperandModel> {
    if 0 <= i < s.toks.len() {
        Some(operand_of(s.toks[i]))
    } else {
        None
    }
}

/// The cell that an operand gives; none where the row has no such column.
pub open spec fn value_in(s: Scope, v: OperandModel) -> Option<CellModel> {
    match v {
        Operand::Null => Some(VcValue::Null),
        Operand::Literal(c) => Some(c),
        Operand::Column(name) => match crate::merge::column_index(s.columns, name) {
            Some(i) => crate::merge::cell_at(s.row, i),
            None => None,
        },
    }
}

/// The cell of the operand at `i`.
pub open spec fn value_at(s: Scope, i: int) -> Option<CellModel> {
    match operand_at(s, i) {
        Some(v) => value_in(s, v),
        None => None,
    }
}

/// The operands of a member list that starts at `i`, behind those already read;
/// also the place behind the last.
pub open spec fn members_at(s: Scope, i: int, got: Seq<OperandModel>) -> Option<
    (Seq<OperandModel>, int),
>
    decreases s.toks.len() - i,
{
    match operand_at(s, i) {
        None => None,
        Some(v) => if crate::sql::is_word(s.toks, i + 1, ","@) {
            members_at(s, i + 2, got.push(v))
        } else {
            Some((got.push(v), i + 1))
        },
    }
}

/// Is a cell among the members? No answer where a member has no value.
pub open spec fn among(s: Scope, cell: CellModel, members: Seq<OperandModel>) -> Option<bool> {
    if forall|k: int| 0 <= k < members.len() ==> value_in(s, #[trigger] members[k]) is Some {
        Some(
            exists|k: int|
                0 <= k < members.len() && value_in(s, #[trigger] members[k]) == Some(cell),
        )
    } else {
        None
    }
}

/// `IN` for the operand at `left`, with its list at `i`; also the place behind.
pub open spec fn in_at(s: Scope, left: int, i: int) -> Option<(Truth, int)> {
    if !crate::sql::is_word(s.toks, i, "("@) {
        None
    } else {
        match members_at(s, i + 1, seq![]) {
            None => None,
            Some((members, j)) => if !crate::sql::is_word(s.toks, j, ")"@) {
                None
            } else {
                match value_at(s, left) {
                    None => None,
                    Some(VcValue::Null) => Some((None, j + 1)),
                    Some(cell) => match among(s, cell, members) {
                        Some(found) => Some((Some(found), j + 1)),
                        None => None,
                    },
                }
            },
        }
    }
}

/// `LIKE` for the operand at `left` with its pattern at `i`; also the place
/// behind.
pub open spec fn like_at(s: Scope, left: int, i: int) -> Option<(Truth, int)> {
    match (value_at(s, left), value_at(s, i)) {
        (Some(a), Some(b)) => match liked(a, b) {
            Some(t) => Some((t, i + 1)),
            None => None,
        },
        _ => None,
    }
}

/// The negation of a truth that was read.
pub open spec fn denied(r: Option<(Truth, int)>) -> Option<(Truth, int)> {
    match r {
        Some((t, j)) => Some((negated(t), j)),
        None => None,
    }
}

/// A predicate whose left operand stands at `i`; also the place behind it.
pub open spec fn predicate_at(s: Scope, i: int) -> Option<(Truth, int)> {
    if operand_at(s, i) is None || i + 1 >= s.toks.len() {
        None
    } else {
        let op = crate::text::uppercase(s.toks[i + 1]);
        if is_comparison(op) {
            match (value_at(s, i), value_at(s, i + 2)) {
                (Some(a), Some(b)) => Some((compared(op, a, b), i + 3)),
                _ => None,
            }
        } else if op == "IS"@ {
            let not = crate::sql::is_word(s.toks, i + 2, "NOT"@);
            let j = if not {
                i + 3
            } else {
                i + 2
            };
            if !crate::sql::is_word(s.toks, j, "NULL"@) {
                None
            } else {
                match value_at(s, i) {
                    Some(a) => Some((Some((a is Null) != not), j + 1)),
                    None => None,
                }
            }
        } else if op == "LIKE"@ {
            like_at(s, i, i + 2)
        } else if op == "NOT"@ {
            if crate::sql::is_word(s.toks, i + 2, "LIKE"@) {
                denied(like_at(s, i, i + 3))
            } else if crate::sql::is_word(s.toks, i + 2, "IN"@) {
                denied(in_at(s, i, i + 3))
            } else {
                None
            }
        } else if op == "IN"@ {
            in_at(s, i, i + 2)
        } else {
            None
        }
    }
}

/// A predicate or a group in parentheses at `i`; also the place behind it.
pub open spec fn primary_at(s: Scope, i: int) -> Option<(Truth, int)>
    decreases s.toks.len() - i, 0int,
{
    if crate::sql::is_word(s.toks, i, "("@) {
        match or_at(s, i + 1) {
            Some((t, j)) => if crate::sql::is_word(s.toks, j, ")"@) {
                Some((t, j + 1))
            } else {
                None
            },
            None => None,
        }
    } else {
        predicate_at(s, i)
    }
}

/// Any number of `NOT` and what they negate; also the place behind it.
pub open spec fn not_at(s: Scope, i: int) -> Option<(Truth, int)>
    decreases s.toks.len() - i, 1int,
{
    if crate::sql::is_word(s.toks, i, "NOT"@) {
        denied(not_at(s, i + 1))
    } else {
        primary_at(s, i)
    }
}

/// The rest of a conjunction behind its first part.
pub open spec fn and_rest(s: Scope, left: Truth, i: int) -> Option<(Truth, int)>
    decreases s.toks.len() - i, 0int,
{
    if crate::sql::is_word(s.toks, i, "AND"@) {
        match not_at(s, i + 1) {
            Some((right, j)) => if i < j <= s.toks.len() {
                and_rest(s, both(left, right), j)
            } else {
                None
            },
            None => None,
        }
    } else {
        Some((left, i))
    }
}

/// A conjunction at `i`; also the place behind it.
pub open spec fn and_at(s: Scope, i: int) -> Option<(Truth, int)>
    decreases s.toks.len() - i, 2int,
{
    match not_at(s, i) {
        Some((left, j)) => if i < j <= s.toks.len() {
            and_rest(s, left, j)
        } else {
            None
        },
        None => None,
    }
}

/// The rest of a disjunction behind its first part.
pub open spec fn or_rest(s: Scope, left: Truth, i: int) -> Option<(Truth, int)>
    decreases s.toks.len() - i, 0int,
{
    if crate::sql::is_word(s.toks, i, "OR"@) {
        match and_at(s, i + 1) {
            Some((right, j)) => if i < j <= s.toks.len() {
                or_rest(s, either(left, right), j)
            } else {
                None
            },
            None => None,
        }
    } else {
        Some((left, i))
    }
}

/// A disjunction at `i`; also the place behind it.
pub open spec fn or_at(s: Scope, i: int) -> Option<(Truth, int)>
    decreases s.toks.len() - i, 3int,
{
    match and_at(s, i) {
        Some((left, j)) => if i < j <= s.toks.len() {
            or_rest(s, left, j)
        } else {
            None
        },
        None => None,
    }
}

/// What a check gives for a row; no answer where it cannot be judged. An expression
/// with words behind it is not one.
pub open spec fn check_of(expr: Seq<char>, row: RowModel, columns: Seq<Seq<char>>) -> Option<
    Truth,
> {
    match or_at(Scope { toks: crate::sql::words(expr), row, columns }, 0) {
        Some((t, end)) => if end == crate::sql::words(expr).len() {
            Some(t)
        } else {
            None
        },
        None => None,
    }
}

/// A reader of one expression over one row.
struct CheckParser<'a> {
    tokens: &'a Vec<String>,
    row: &'a VcRow,
    columns: &'a Vec<String>,
}

/// What the reader hands back: a truth and the place behind it.
type Parsed = Option<(Truth, usize)>;

/// A parse agrees with its model and moved on within the words.
spec fn parsed(r: Parsed, m: Option<(Truth, int)>, i: int, len: nat) -> bool {
    match r {
        Some((t, j)) => m == Some((t, j as int)) && i < j <= len,
        None => m is None,
    }
}

impl<'a> CheckParser<'a> {
    spec fn scope(&self) -> Scope {
        Scope {
            toks: self.tokens.deep_view(),
            row: self.row.deep_view(),
            columns: self.columns.deep_view(),
        }
    }

    fn operand(&self, i: usize) -> (r: Option<Operand>)
        ensures
            match operand_at(self.scope(), i as int) {
                Some(v) => r matches Some(x) && x.deep_view() == v,
                None => r is None,
            },
    {
        if i < self.tokens.len() {
            assert(self.tokens.deep_view()[i as int] == self.tokens@[i as int]@);
            Some(read_operand(&self.tokens[i]))
        } else {
            None
        }
    }

    fn value_of(&self, v: &Operand) -> (r: Option<VcValue>)
        ensures
            match value_in(self.scope(), v.deep_view()) {
                Some(c) => r matches Some(x) && x.deep_view() == c,
                None => r is None,
            },
    {
        match v {
            Operand::Null => Some(VcValue::Null),
            Operand::Literal(c) => Some(c.dup()),
            Operand::Column(name) => match find_column(self.columns, name.as_str()) {
                Some(i) => {
                    if i < self.row.values.len() {
                        assert(self.row.deep_view()[i as int] == self.row.values@[i as int].deep_view());
                        Some(self.row.values[i].dup())
                    } else {
                        None
                    }
                },
                None => None,
            },
        }
    }

    fn parse_value(&self, i: usize) -> (r: Option<VcValue>)
        ensures
            match value_at(self.scope(), i as int) {
                Some(c) => r matches Some(x) && x.deep_view() == c,
                None => r is None,
            },
    {
        match self.operand(i) {
            Some(v) => self.value_of(&v),
            None => None,
        }
    }

    fn parse_members(&self, i: usize) -> (r: Option<(Vec<Operand>, usize)>)
        requires
            i <= self.tokens@.len(),
        ensures
            match members_at(self.scope(), i as int, seq![]) {
                Some((m, j)) => r matches Some(x) && x.0.deep_view() == m && x.1 == j && i < j
                    <= self.tokens@.len(),
                None => r is None,
            },
    {
        let ghost s = self.scope();
        let mut members: Vec<Operand> = Vec::new();
        let mut j: usize = i;
        assert(members.deep_view() =~= seq![]);
        loop
            invariant
                i <= j <= self.tokens@.len(),
                s == self.scope(),
                members_at(s, j as int, members.deep_view()) == members_at(s, i as int, seq![]),
            decreases self.tokens.len() - j,
        {
            let ghost before = members.deep_view();
            match self.operand(j) {
                None => {
                    return None;
                },
                Some(v) => {
                    assert(j < self.tokens.len());
                    let ghost x = v.deep_view();
                    members.push(v);
                    assert(members.deep_view() =~= before.push(x));
                    if word_is(self.tokens, j + 1, ",") {
                        j = j + 2;
                    } else {
                        return Some((members, j + 1));
                    }
                },
            }
        }
    }

    fn is_among(&self, cell: &VcValue, members: &Vec<Operand>) -> (r: Option<bool>)
        ensures
            r == among(self.scope(), cell.deep_view(), members.deep_view()),
    {
        let ghost s = self.scope();
        let ghost m = members.deep_view();
        let mut found = false;
        let mut k: usize = 0;
        while k < members.len()
            invariant
                k <= members@.len(),
                s == self.scope(),
                m == members.deep_view(),
                forall|j: int| 0 <= j < k ==> value_in(s, #[trigger] m[j]) is Some,
                found == exists|j: int|
                    0 <= j < k && value_in(s, #[trigger] m[j]) == Some(cell.deep_view()),
            decreases members.len() - k,
        {
            assert(m[k as int] == members@[k as int].deep_view());
            match self.value_of(&members[k]) {
                Some(v) => {
                    if v.same(cell) {
                        found = true;
                    }
                },
                None => {
                    return None;
                },
            }
            k = k + 1;
        }
        Some(found)
    }

    fn parse_in(&self, left: usize, i: usize) -> (r: Parsed)
        ensures
            parsed(
                r,
                in_at(self.scope(), left as int, i as int),
                i as int,
                self.tokens@.len(),
            ),
    {
        if !word_is(self.tokens, i, "(") {
            return None;
        }
        assert(i < self.tokens.len());
        match self.parse_members(i + 1) {
            None => None,
            Some((members, j)) => {
                if !word_is(self.tokens, j, ")") {
                    return None;
                }
                assert(j < self.tokens.len());
                match self.parse_value(left) {
                    None => None,
                    Some(cell) => {
                        if matches!(cell, VcValue::Null) {
                            return Some((None, j + 1));
                        }
                        match self.is_among(&cell, &members) {
                            Some(found) => Some((Some(found), j + 1)),
                            None => None,
                        }
                    },
                }
            },
        }
    }

    fn parse_like(&self, left: usize, i: usize) -> (r: Parsed)
        ensures
            parsed(
                r,
                like_at(self.scope(), left as int, i as int),
                i as int,
                self.tokens@.len(),
            ),
    {
        let a = self.parse_value(left);
        let b = self.parse_value(i);
        match (a, b) {
            (Some(x), Some(y)) => {
                assert(i < self.tokens.len());
                match like_values(&x, &y) {
                    Some(t) => Some((t, i + 1)),
                    None => None,
                }
            },
            _ => None,
        }
    }

    fn parse_predicate(&self, i: usize) -> (r: Parsed)
        requires
            i <= self.tokens@.len(),
        ensures
            parsed(r, predicate_at(self.scope(), i as int), i as int, self.tokens@.len()),
    {
        let ghost s = self.scope();
        let n = self.tokens.len();
        if i >= n || i + 1 >= n {
            return None;
        }
        assert(s.toks[i + 1] == self.tokens@[i + 1]@);
        let word = upper(self.tokens[i + 1].as_str());
        let op = word.as_str();
        // The place behind the operator is within the words.
        let k: usize = i + 2;
        if is_comparison_word(op) {
            let a = self.parse_value(i);
            let b = self.parse_value(k);
            match (a, b) {
                (Some(x), Some(y)) => {
                    assert(k < n);
                    Some((compare_values(op, &x, &y), k + 1))
                },
                _ => None,
            }
        } else if str_eq(op, "IS") {
            let not = word_is(self.tokens, k, "NOT");
            assert(not ==> k < n);
            let j: usize = if not {
                k + 1
            } else {
                k
            };
            if !word_is(self.tokens, j, "NULL") {
                return None;
            }
            assert(j < n);
            match self.parse_value(i) {
                Some(x) => Some((Some(matches!(x, VcValue::Null) != not), j + 1)),
                None => None,
            }
        } else if str_eq(op, "LIKE") {
            self.parse_like(i, k)
        } else if str_eq(op, "NOT") {
            if word_is(self.tokens, k, "LIKE") {
                assert(k < n);
                match self.parse_like(i, k + 1) {
                    Some((t, j)) => Some((not_of(t), j)),
                    None => None,
                }
            } else if word_is(self.tokens, k, "IN") {
                assert(k < n);
                match self.parse_in(i, k + 1) {
                    Some((t, j)) => Some((not_of(t), j)),
                    None => None,
                }
            } else {
                None
            }
        } else if str_eq(op, "IN") {
            self.parse_in(i, k)
        } else {
            None
        }
    }

    fn parse_primary(&self, i: usize) -> (r: Parsed)
        requires
            i <= self.tokens@.len(),
        ensures
            parsed(r, primary_at(self.scope(), i as int), i as int, self.tokens@.len()),
        decreases self.tokens@.len() - i, 0int,
    {
        if word_is(self.tokens, i, "(") {
            assert(i < self.tokens.len());
            match self.parse_or(i + 1) {
                Some((t, j)) => {
                    if word_is(self.tokens, j, ")") {
                        assert(j < self.tokens.len());
                        Some((t, j + 1))
                    } else {
                        None
                    }
                },
                None => None,
            }
        } else {
            self.parse_predicate(i)
        }
    }

    fn parse_not(&self, i: usize) -> (r: Parsed)
        requires
            i <= self.tokens@.len(),
        ensures
            parsed(r, not_at(self.scope(), i as int), i as int, self.tokens@.len()),
        decreases self.tokens@.len() - i, 1int,
    {
        if word_is(self.tokens, i, "NOT") {
            assert(i < self.tokens.len());
            match self.parse_not(i + 1) {
                Some((t, j)) => Some((not_of(t), j)),
                None => None,
            }
        } else {
            self.parse_primary(i)
        }
    }

    fn parse_and(&self, i: usize) -> (r: Parsed)
        requires
            i <= self.tokens@.len(),
        ensures
            parsed(r, and_at(self.scope(), i as int), i as int, self.tokens@.len()),
        decreases self.tokens@.len() - i, 2int,
    {
        let ghost s = self.scope();
        let (mut left, mut j) = match self.parse_not(i) {
            Some(x) => x,
            None => {
                return None;
            },
        };
        while word_is(self.tokens, j, "AND")
            invariant
                i < j <= self.tokens@.len(),
                s == self.scope(),
                and_rest(s, left, j as int) == and_at(s, i as int),
            decreases self.tokens.len() - j,
        {
            assert(j < self.tokens.len());
            match self.parse_not(j + 1) {
                Some((right, k)) => {
                    left = bool_and(left, right);
                    j = k;
                },
                None => {
                    return None;
                },
            }
        }
        Some((left, j))
    }

    fn parse_or(&self, i: usize) -> (r: Parsed)
        requires
            i <= self.tokens@.len(),
        ensures
            parsed(r, or_at(self.scope(), i as int), i as int, self.tokens@.len()),
        decreases self.tokens@.len() - i, 3int,
    {
        let ghost s = self.scope();
        let (mut left, mut j) = match self.parse_and(i) {
            Some(x) => x,
            None => {
                return None;
            },
        };
        while word_is(self.tokens, j, "OR")
            invariant
                i < j <= self.tokens@.len(),
                s == self.scope(),
                or_rest(s, left, j as int) == or_at(s, i as int),
            decreases self.tokens.len() - j,
        {
            assert(j < self.tokens.len());
            match self.parse_and(j + 1) {
                Some((right, k)) => {
                    left = bool_or(left, right);
                    j = k;
                },
                None => {
                    return None;
                },
            }
        }
        Some((left, j))
    }
}

/// Evaluate a check for one row: the truth it gives, or the expression's text
/// where it cannot be judged. Unknown satisfies a check.
pub fn eval_check(expr: &str, row: &VcRow, columns: &Vec<String>) -> (r: Result<Truth, String>)
    ensures
        match check_of(expr@, row.deep_view(), columns.deep_view()) {
            Some(t) => r == Ok::<Truth, String>(t),
            None => r matches Err(e) && e@ == expr@,
        },
{
    let tokens = tokenize(expr);
    let parser = CheckParser { tokens: &tokens, row, columns };
    match parser.parse_or(0) {
        Some((t, end)) => if end == tokens.len() {
            Ok(t)
        } else {
            Err(expr.to_owned())
        },
        None => Err(expr.to_owned()),
    }
}

// ---------------------------------------------------------------------------
// Laws
// ---------------------------------------------------------------------------

/// A text is like itself where it holds none of the pattern's marks.
pub proof fn law_like_itself(t: Seq<char>)
    requires
        forall|i: int| 0 <= i < t.len() ==> #[trigger] t[i] != '%' && t[i] != '_',
    ensures
        is_like(t, t),
{
    lemma_like_same(t, 0);
}

proof fn lemma_like_same(t: Seq<char>, i: int)
    requires
        0 <= i <= t.len(),
        forall|i: int| 0 <= i < t.len() ==> #[trigger] t[i] != '%' && t[i] != '_',
    ensures
        like_from(t, t, i, i),
    decreases t.len() - i,
{
    if i < t.len() {
        lemma_like_same(t, i + 1);
    }
}

/// A lone run mark matches every text.
pub proof fn law_run_matches_all(t: Seq<char>)
    ensures
        is_like(t, seq!['%']),
{
    lemma_run_matches(t, 0);
}

proof fn lemma_run_matches(t: Seq<char>, i: int)
    requires
        0 <= i <= t.len(),
    ensures
        like_from(t, seq!['%'], i, 0),
    decreases t.len() - i,
{
    if i < t.len() {
        lemma_run_matches(t, i + 1);
    } else {
        assert(like_from(t, seq!['%'], i, 1));
    }
}

/// The three-valued connectives: `OR` and `AND` do not mind the order, double
/// negation changes nothing, and a null operand makes a comparison unknown.
pub proof fn law_three_values(a: Truth, b: Truth, op: Seq<char>, x: CellModel)
    ensures
        both(a, b) == both(b, a),
        either(a, b) == either(b, a),
        negated(negated(a)) == a,
        negated(both(a, b)) == either(negated(a), negated(b)),
        compared(op, VcValue::Null, x) is None,
        compared(op, x, VcValue::Null) is None,
{
}

/// The comparisons are different words.
proof fn lemma_comparison_words()
    ensures
        "="@ != "!="@ && "="@ != "<>"@ && "="@ != "<"@ && "="@ != "<="@ && "="@ != ">"@ && "="@
            != ">="@,
        "=="@ != "!="@ && "=="@ != "<>"@ && "=="@ != "<"@ && "=="@ != "<="@ && "=="@ != ">"@
            && "=="@ != ">="@,
        "!="@ != "<"@ && "!="@ != "<="@ && "!="@ != ">"@ && "!="@ != ">="@,
        "<>"@ != "<"@ && "<>"@ != "<="@ && "<>"@ != ">"@ && "<>"@ != ">="@,
        "<"@ != "<="@ && "<"@ != ">"@ && "<"@ != ">="@,
        "<="@ != ">"@ && "<="@ != ">="@ && ">"@ != ">="@,
{
    reveal_strlit("=");
    reveal_strlit("==");
    reveal_strlit("!=");
    reveal_strlit("<>");
    reveal_strlit("<");
    reveal_strlit("<=");
    reveal_strlit(">");
    reveal_strlit(">=");
    assert("="@.len() == 1 && "<"@.len() == 1 && ">"@.len() == 1);
    assert("=="@.len() == 2 && "!="@.len() == 2 && "<>"@.len() == 2 && "<="@.len() == 2 && ">="@.len()
        == 2);
    assert("="@[0] == '=' && "<"@[0] == '<' && ">"@[0] == '>');
    assert("=="@[0] == '=' && "!="@[0] == '!' && "<>"@[0] == '<' && "<="@[0] == '<' && ">="@[0]
        == '>');
    assert("<>"@[1] == '>' && "<="@[1] == '=' && ">="@[1] == '=');
}

/// Integers compare as the numbers that they are.
pub proof fn law_integers_compare_as_numbers(x: i64, y: i64)
    ensures
        ({
            let a: CellModel = VcValue::Integer(x);
            let b: CellModel = VcValue::Integer(y);
            &&& compared("="@, a, b) == Some(x == y)
            &&& compared("=="@, a, b) == Some(x == y)
            &&& compared("!="@, a, b) == Some(x != y)
            &&& compared("<>"@, a, b) == Some(x != y)
            &&& compared("<"@, a, b) == Some(x < y)
            &&& compared("<="@, a, b) == Some(x <= y)
            &&& compared(">"@, a, b) == Some(x > y)
            &&& compared(">="@, a, b) == Some(x >= y)
        }),
{
    lemma_comparison_words();
}

/// Texts compare as they stand in a dictionary of their bytes: a text comes before every
/// longer one that begins with it, and where two texts part, the lesser character comes
/// first; characters beyond ASCII are left open.
pub proof fn law_texts_compare_as_in_a_dictionary(
    front: Seq<char>,
    c: char,
    d: char,
    left: Seq<char>,
    right: Seq<char>,
)
    requires
        (c as u32) < (d as u32) <= 0x7f,
    ensures
        ({
            let short: CellModel = VcValue::Text(front);
            let a: CellModel = VcValue::Text(front + seq![c] + left);
            let b: CellModel = VcValue::Text(front + seq![d] + right);
            &&& compared("<"@, short, a) == Some(true)
            &&& compared("<"@, a, short) == Some(false)
            &&& compared("="@, a, b) == Some(false)
            &&& compared("<"@, a, b) == Some(true)
            &&& compared("<"@, b, a) == Some(false)
        }),
{
    lemma_comparison_words();
    crate::text::law_text_order(front, c, d, left, right);
}

/// The comparisons of any two cells that are not null go together: two cells are equal
/// or one comes before the other, never both; `<=` is `<` or `=`, and each of `!=`, `>`
/// and `>=` denies another; exchanging the sides exchanges `<` and `>`; and what comes
/// before something comes before all that comes behind it.
pub proof fn law_comparisons_go_together(a: CellModel, b: CellModel, c: CellModel)
    requires
        !(a is Null) && !(b is Null) && !(c is Null),
    ensures
        compared("="@, a, b) == Some(a == b),
        compared("=="@, a, b) == compared("="@, a, b),
        compared("!="@, a, b) == negated(compared("="@, a, b)),
        compared("<>"@, a, b) == compared("!="@, a, b),
        compared("<="@, a, b) == either(compared("<"@, a, b), compared("="@, a, b)),
        compared(">"@, a, b) == negated(compared("<="@, a, b)),
        compared(">="@, a, b) == negated(compared("<"@, a, b)),
        compared("<"@, a, b) == compared(">"@, b, a),
        compared("<"@, a, b) == Some(true) ==> compared("="@, a, b) == Some(false) && compared(
            "<"@,
            b,
            a,
        ) == Some(false),
        compared("<"@, a, b) == Some(true) && compared("<"@, b, c) == Some(true) ==> compared(
            "<"@,
            a,
            c,
        ) == Some(true),
{
    lemma_comparison_words();
    crate::values::lemma_cell_lt_total(a, b);
    crate::values::lemma_cell_lt_total(b, a);
    if crate::values::cell_lt(a, b) && crate::values::cell_lt(b, c) {
        crate::values::lemma_cell_lt_trans(a, b, c);
    }
}

/// The truth table of the connectives: an `AND` is true where both sides are, and false
/// where one is; an `OR` is true where one side is, and false where both are; a `NOT`
/// exchanges true and false. What is none of these is unknown.
pub proof fn law_truth_tables(a: Truth, b: Truth)
    ensures
        both(a, b) == Some(true) <==> a == Some(true) && b == Some(true),
        both(a, b) == Some(false) <==> a == Some(false) || b == Some(false),
        either(a, b) == Some(true) <==> a == Some(true) || b == Some(true),
        either(a, b) == Some(false) <==> a == Some(false) && b == Some(false),
        negated(a) == Some(true) <==> a == Some(false),
        negated(a) == Some(false) <==> a == Some(true),
{
}

} // verus!
