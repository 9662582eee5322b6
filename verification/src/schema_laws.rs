//! What the clauses of a table definition declare.

use vstd::prelude::*;

use crate::merge_schema::{ColModel, ColState};

verus! {

/// Is a word none of those that open a clause of a column?
pub open spec fn is_type_word(w: Seq<char>) -> bool {
    let u = crate::text::uppercase(w);
    &&& u != "NOT"@ && u != "NULL"@ && u != "DEFAULT"@ && u != "PRIMARY"@ && u != "AUTOINCREMENT"@
    &&& u != "CHECK"@ && u != "UNIQUE"@ && u != "COLLATE"@ && u != "REFERENCES"@
    &&& u != ","@ && w != ","@
}

/// Is a word, whatever its case, this keyword?
pub open spec fn is_keyword(toks: Seq<Seq<char>>, i: int, w: Seq<char>) -> bool {
    0 <= i < toks.len() && crate::text::uppercase(toks[i]) == w
}

/// The state before the first clause.
spec fn fresh() -> ColState {
    ColState { parts: seq![], notnull: false, dflt: None, pk: false }
}

proof fn lemma_clause_words()
    ensures
        "NOT"@ != "NULL"@ && "NOT"@ != "DEFAULT"@ && "NOT"@ != "PRIMARY"@ && "NOT"@ != "UNIQUE"@,
        "DEFAULT"@ != "NULL"@ && "DEFAULT"@ != "PRIMARY"@ && "DEFAULT"@ != "UNIQUE"@,
        "PRIMARY"@ != "NULL"@ && "PRIMARY"@ != "UNIQUE"@,
        "UNIQUE"@ != "NULL"@ && "UNIQUE"@ != "AUTOINCREMENT"@ && "UNIQUE"@ != "CHECK"@,
{
    reveal_strlit("NOT");
    reveal_strlit("NULL");
    reveal_strlit("DEFAULT");
    reveal_strlit("PRIMARY");
    reveal_strlit("UNIQUE");
    reveal_strlit("AUTOINCREMENT");
    reveal_strlit("CHECK");
    assert("NOT"@[1] == 'O' && "NULL"@[1] == 'U' && "NOT"@[0] == 'N' && "NULL"@[0] == 'N');
    assert("DEFAULT"@[0] == 'D' && "PRIMARY"@[0] == 'P' && "UNIQUE"@[0] == 'U');
    assert("AUTOINCREMENT"@[0] == 'A' && "CHECK"@[0] == 'C');
}

/// A type word is a part of the declaration and says nothing else.
proof fn lemma_type_step(toks: Seq<Seq<char>>, i: int, st: ColState)
    requires
        0 <= i < toks.len(),
        is_type_word(toks[i]),
    ensures
        crate::merge_schema::col_step(toks, i, st) == (
            ColState { parts: st.parts.push(toks[i]), ..st },
            i + 1,
        ),
{
}

/// A column of a name and a type has that name and that declaration, may be null, has no
/// default and is no key.
pub proof fn law_plain_column_reads(item: Seq<char>)
    requires
        crate::sql::words(item).len() == 2,
        is_type_word(crate::sql::words(item)[1]),
    ensures
        crate::merge_schema::column_of(item) == Some(
            ColModel {
                name: crate::sql::unquoted(crate::sql::words(item)[0]),
                decl: crate::sql::words(item)[1],
                notnull: false,
                dflt: None,
                pk_pos: None,
            },
        ),
{
    let toks = crate::sql::words(item);
    lemma_type_step(toks, 1, fresh());
    let one = ColState { parts: seq![toks[1]], ..fresh() };
    assert(fresh().parts.push(toks[1]) =~= one.parts);
    assert(crate::merge_schema::col_clauses(toks, 2, one) == one);
    assert(crate::merge_schema::col_clauses(toks, 1, fresh()) == one);
}

/// Behind name and type, `NOT NULL` and nothing else makes a column required, `PRIMARY KEY`
/// makes it a key, `DEFAULT` gives it the word behind as its default; each stands in the
/// declaration behind the type.
pub proof fn law_column_clauses_read(item: Seq<char>)
    requires
        crate::sql::words(item).len() == 4,
        is_type_word(crate::sql::words(item)[1]),
    ensures
        ({
            let toks = crate::sql::words(item);
            let name = crate::sql::unquoted(toks[0]);
            let made = crate::merge_schema::column_of(item);
            &&& is_keyword(toks, 2, "NOT"@) && crate::sql::is_word(toks, 3, "NULL"@) ==> made
                == Some(
                ColModel {
                    name,
                    decl: toks[1] + " "@ + "NOT NULL"@,
                    notnull: true,
                    dflt: None,
                    pk_pos: None,
                },
            )
            &&& is_keyword(toks, 2, "PRIMARY"@) && crate::sql::is_word(toks, 3, "KEY"@) ==> made
                == Some(
                ColModel {
                    name,
                    decl: toks[1] + " "@ + "PRIMARY KEY"@,
                    notnull: false,
                    dflt: None,
                    pk_pos: Some(0usize),
                },
            )
            &&& is_keyword(toks, 2, "DEFAULT"@) && is_type_word(toks[3]) ==> made == Some(
                ColModel {
                    name,
                    decl: toks[1] + " "@ + ("DEFAULT "@ + toks[3]),
                    notnull: false,
                    dflt: Some(toks[3]),
                    pk_pos: None,
                },
            )
        }),
{
    let toks = crate::sql::words(item);
    lemma_clause_words();
    lemma_type_step(toks, 1, fresh());
    let one = ColState { parts: seq![toks[1]], ..fresh() };
    assert(fresh().parts.push(toks[1]) =~= one.parts);
    assert(crate::merge_schema::col_clauses(toks, 1, fresh())
        == crate::merge_schema::col_clauses(toks, 2, one));
    let (next, j) = crate::merge_schema::col_step(toks, 2, one);
    if is_keyword(toks, 2, "NOT"@) && crate::sql::is_word(toks, 3, "NULL"@) {
        assert(j == 4);
        assert(crate::merge_schema::col_clauses(toks, 4, next) == next);
        assert(crate::merge_schema::col_clauses(toks, 2, one) == next);
        lemma_two_parts(toks[1], "NOT NULL"@);
        assert(next.parts =~= seq![toks[1], "NOT NULL"@]);
    }
    if is_keyword(toks, 2, "PRIMARY"@) && crate::sql::is_word(toks, 3, "KEY"@) {
        assert(j == 4);
        assert(crate::merge_schema::col_clauses(toks, 4, next) == next);
        assert(crate::merge_schema::col_clauses(toks, 2, one) == next);
        lemma_two_parts(toks[1], "PRIMARY KEY"@);
        assert(next.parts =~= seq![toks[1], "PRIMARY KEY"@]);
    }
    if is_keyword(toks, 2, "DEFAULT"@) && is_type_word(toks[3]) {
        reveal_with_fuel(crate::merge_schema::default_end, 3);
        assert(crate::merge_schema::default_end(toks, 3) == 4);
        reveal_with_fuel(crate::merge_schema::spaced, 3);
        assert(crate::merge_schema::spaced(toks, 3, 4) == toks[3]);
        assert(j == 4);
        assert(crate::merge_schema::col_clauses(toks, 4, next) == next);
        assert(crate::merge_schema::col_clauses(toks, 2, one) == next);
        lemma_two_parts(toks[1], "DEFAULT "@ + toks[3]);
        assert(next.parts =~= seq![toks[1], "DEFAULT "@ + toks[3]]);
    }
}

proof fn lemma_two_parts(a: Seq<char>, b: Seq<char>)
    ensures
        crate::text::joined(seq![a, b], " "@) == a + " "@ + b,
{
    reveal_with_fuel(crate::text::joined, 3);
    assert(seq![a, b].drop_last() =~= seq![a]);
}

/// A `CHECK` with words in parentheses behind it, none of them a parenthesis, is the one
/// check of a text, and it is made of these words.
pub proof fn law_check_reads(text: Seq<char>)
    requires
        ({
            let toks = crate::sql::words(text);
            let n = toks.len();
            &&& n >= 3
            &&& crate::sql::is_word(toks, 0, "CHECK"@)
            &&& toks[1] == "("@
            &&& toks[n - 1] == ")"@
            &&& forall|i: int|
                2 <= i < n - 1 ==> #[trigger] toks[i] != "("@ && toks[i] != ")"@
                    && !crate::sql::is_word(toks, i, "CHECK"@)
        }),
    ensures
        ({
            let toks = crate::sql::words(text);
            crate::constraints::check_exprs(text) == seq![
                crate::text::joined(
                    toks.subrange(2, toks.len() - 1).map_values(
                        |w: Seq<char>| crate::sql::unquoted(w),
                    ),
                    " "@,
                ),
            ]
        }),
{
    let toks = crate::sql::words(text);
    let n = toks.len() as int;
    reveal_strlit("(");
    reveal_strlit(")");
    reveal_strlit("CHECK");
    assert("("@[0] == '(' && ")"@[0] == ')' && "CHECK"@[0] == 'C');
    assert(crate::text::ascii_uppercase("CHECK"@)[0] == 'C');
    assert(crate::text::ascii_uppercase("("@)[0] == '(');
    assert(crate::text::ascii_uppercase(")"@)[0] == ')');
    lemma_group(toks, 2, n - 1);
    let f = crate::constraints::check_expr(toks);
    assert(f(0).len() == 1);
    assert forall|i: int| 1 <= i < n implies (#[trigger] f(i)) == Seq::<Seq<char>>::empty() by {
        assert(!crate::sql::is_word(toks, i, "CHECK"@));
    }
    lemma_gather_first(n, f);
    assert(crate::constraints::check_exprs(text) =~= f(0));
}

proof fn lemma_group(toks: Seq<Seq<char>>, i: int, j: int)
    requires
        0 <= i <= j < toks.len(),
        toks[j] == ")"@,
        "("@ != ")"@,
        forall|k: int| i <= k < j ==> #[trigger] toks[k] != "("@ && toks[k] != ")"@,
    ensures
        crate::sql::group_end(toks, i, 0) == j,
    decreases j - i,
{
    if i < j {
        assert(toks[i] != "("@ && toks[i] != ")"@);
        lemma_group(toks, i + 1, j);
    }
}

proof fn lemma_gather_first<A>(n: int, f: spec_fn(int) -> Seq<A>)
    requires
        n >= 1,
        forall|i: int| 1 <= i < n ==> (#[trigger] f(i)) == Seq::<A>::empty(),
    ensures
        crate::constraints::gather(n, f) == f(0),
    decreases n,
{
    if n > 1 {
        lemma_gather_first(n - 1, f);
        assert(crate::constraints::gather(n - 1, f) + f(n - 1) =~= f(0));
    } else {
        assert(crate::constraints::gather(0, f) =~= seq![]);
        assert(Seq::<A>::empty() + f(0) =~= f(0));
    }
}

} // verus!
