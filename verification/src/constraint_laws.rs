//! When a table passes its constraints, said of its cells.

use vstd::prelude::*;

use crate::constraints::{FkModel, TableModel};
use crate::merge_schema::{ColModel, SchemaModel};
use crate::values::{CellModel, RowModel, VcValue};

verus! {

proof fn lemma_gather_empty<A>(n: int, f: spec_fn(int) -> Seq<A>)
    ensures
        crate::constraints::gather(n, f).len() == 0 <==> forall|i: int|
            0 <= i < n ==> (#[trigger] f(i)).len() == 0,
    decreases n,
{
    if n > 0 {
        lemma_gather_empty(n - 1, f);
        if forall|i: int| 0 <= i < n - 1 ==> (#[trigger] f(i)).len() == 0 {
            if f(n - 1).len() == 0 {
                assert forall|i: int| 0 <= i < n implies (#[trigger] f(i)).len() == 0 by {}
            }
        }
    }
}

/// Is every row as wide as the table, and does each column have a name of its own?
pub open spec fn is_regular(columns: Seq<ColModel>, rows: Seq<RowModel>) -> bool {
    &&& forall|j: int| 0 <= j < rows.len() ==> (#[trigger] rows[j]).len() == columns.len()
    &&& forall|c: int, d: int|
        0 <= c < d < columns.len() ==> (#[trigger] columns[c]).name != (#[trigger] columns[d]).name
}

/// Does a row have a cell in the column of a name?
pub open spec fn cell_is(
    columns: Seq<ColModel>,
    row: RowModel,
    name: Seq<char>,
    cell: CellModel,
) -> bool {
    exists|c: int|
        0 <= c < columns.len() && c < row.len() && (#[trigger] columns[c]).name == name && row[c]
            == cell
}

/// Are all of these the names of columns?
pub open spec fn all_columns(columns: Seq<ColModel>, names: Seq<Seq<char>>) -> bool {
    forall|k: int|
        0 <= k < names.len() ==> exists|c: int|
            0 <= c < columns.len() && (#[trigger] columns[c]).name == #[trigger] names[k]
}

/// Do two rows have equal cells, not null, in two columns?
pub open spec fn share_cell(
    columns: Seq<ColModel>,
    a: RowModel,
    name: Seq<char>,
    others: Seq<ColModel>,
    b: RowModel,
    wanted: Seq<char>,
) -> bool {
    exists|cell: CellModel|
        !(cell is Null) && #[trigger] cell_is(columns, a, name, cell) && cell_is(
            others,
            b,
            wanted,
            cell,
        )
}

/// Do two rows have equal cells, none of them null, in each of these columns?
pub open spec fn agree_on(
    columns: Seq<ColModel>,
    a: RowModel,
    names: Seq<Seq<char>>,
    others: Seq<ColModel>,
    b: RowModel,
    wanted: Seq<Seq<char>>,
) -> bool {
    forall|k: int|
        0 <= k < names.len() ==> share_cell(
            columns,
            a,
            #[trigger] names[k],
            others,
            b,
            wanted[k],
        )
}

proof fn lemma_all_found(columns: Seq<ColModel>, wanted: Seq<Seq<char>>)
    ensures
        crate::constraints::all_found(crate::constraints::names(columns), wanted) <==> all_columns(
            columns,
            wanted,
        ),
{
    let names = crate::constraints::names(columns);
    assert forall|k: int| 0 <= k < wanted.len() implies (crate::merge::column_index(
        names,
        #[trigger] wanted[k],
    ) is Some <==> exists|c: int|
        0 <= c < columns.len() && (#[trigger] columns[c]).name == wanted[k]) by {
        crate::merge::lemma_name_from(names, wanted[k], 0);
        if let Some(i) = crate::merge::column_index(names, wanted[k]) {
            assert(columns[i].name == names[i]);
        } else {
            assert forall|c: int| 0 <= c < columns.len() implies (#[trigger] columns[c]).name
                != wanted[k] by {
                assert(names[c] != wanted[k]);
            }
        }
    }
    if crate::constraints::all_found(names, wanted) {
        assert forall|k: int| 0 <= k < wanted.len() implies exists|c: int|
            0 <= c < columns.len() && (#[trigger] columns[c]).name == #[trigger] wanted[k] by {
            assert(crate::merge::column_index(names, wanted[k]) is Some);
        }
    }
    if all_columns(columns, wanted) {
        assert forall|k: int| 0 <= k < wanted.len() implies crate::merge::column_index(
            names,
            #[trigger] wanted[k],
        ) is Some by {
            let c = choose|c: int|
                0 <= c < columns.len() && (#[trigger] columns[c]).name == wanted[k];
            assert(columns[c].name == wanted[k]);
        }
    }
}

/// The cell of a column is the one that stands in its place.
proof fn lemma_named_cell(columns: Seq<ColModel>, row: RowModel, name: Seq<char>, cell: CellModel)
    requires
        row.len() == columns.len(),
        forall|c: int, d: int|
            0 <= c < d < columns.len() ==> (#[trigger] columns[c]).name != (
            #[trigger] columns[d]).name,
    ensures
        crate::constraints::named_cell(row, crate::constraints::names(columns), name) == Some(cell)
            <==> cell_is(columns, row, name, cell),
{
    let names = crate::constraints::names(columns);
    crate::merge::lemma_name_from(names, name, 0);
    if cell_is(columns, row, name, cell) {
        let c = choose|c: int|
            0 <= c < columns.len() && c < row.len() && (#[trigger] columns[c]).name == name
                && row[c] == cell;
        assert(names[c] == name);
        let i = crate::merge::column_index(names, name)->0;
        assert(names[i] == columns[i].name);
        assert(i == c);
    }
    if let Some(i) = crate::merge::column_index(names, name) {
        assert(columns[i].name == names[i]);
    }
}

/// A table passes its `NOT NULL` columns exactly if none of their cells is null.
pub proof fn law_not_null_passes(t: TableModel)
    ensures
        crate::constraints::null_violations(t).len() == 0 <==> forall|c: int, j: int|
            0 <= c < t.schema.columns.len() && 0 <= j < t.rows.len() && c < t.rows[j].len()
                && t.schema.columns[c].notnull ==> !(#[trigger] t.rows[j][c] is Null),
{
    let n = t.rows.len() as int;
    let w = t.schema.columns.len() as int;
    let f = crate::constraints::null_column(t);
    lemma_gather_empty(w, f);
    assert forall|c: int| 0 <= c < w implies ((#[trigger] f(c)).len() == 0 <==> (
    t.schema.columns[c].notnull ==> forall|j: int|
        0 <= j < n && c < t.rows[j].len() ==> !(#[trigger] t.rows[j][c] is Null))) by {
        let g = crate::constraints::null_row(t, c);
        lemma_gather_empty(n, g);
        if t.schema.columns[c].notnull {
            assert forall|j: int| 0 <= j < n implies ((#[trigger] g(j)).len() == 0 <==> (c
                < t.rows[j].len() ==> !(t.rows[j][c] is Null))) by {}
            if forall|j: int|
                0 <= j < n && c < t.rows[j].len() ==> !(#[trigger] t.rows[j][c] is Null) {
                assert forall|j: int| 0 <= j < n implies (#[trigger] g(j)).len() == 0 by {}
            }
            if f(c).len() == 0 {
                assert forall|j: int|
                    0 <= j < n && c < t.rows[j].len() implies !(#[trigger] t.rows[j][c] is Null) by {
                    assert(g(j).len() == 0);
                }
            }
        }
    }
    if crate::constraints::null_violations(t).len() == 0 {
        assert forall|c: int, j: int|
            0 <= c < w && 0 <= j < n && c < t.rows[j].len() && t.schema.columns[c].notnull implies !(
        #[trigger] t.rows[j][c] is Null) by {
            assert(f(c).len() == 0);
        }
    }
}

/// Does a cell belong in a column whose declaration opens with this word?
pub open spec fn belongs(word: Seq<char>, cell: CellModel) -> bool {
    match cell {
        VcValue::Null => true,
        VcValue::Integer(_) => !is_real_word(word) && !is_text_word(word) && word != "BLOB"@,
        VcValue::Real(_) => !is_integer_word(word) && !is_text_word(word) && word != "BLOB"@,
        VcValue::Text(_) => !is_integer_word(word) && !is_real_word(word) && word != "BLOB"@,
        VcValue::Blob(_) => !is_integer_word(word) && !is_real_word(word) && !is_text_word(word),
    }
}

/// The words for integers.
pub open spec fn is_integer_word(w: Seq<char>) -> bool {
    seq![
        "INT"@,
        "INTEGER"@,
        "BIGINT"@,
        "SMALLINT"@,
        "TINYINT"@,
        "MEDIUMINT"@,
        "INT2"@,
        "INT8"@,
    ].contains(w)
}

/// The words for real numbers.
pub open spec fn is_real_word(w: Seq<char>) -> bool {
    seq!["REAL"@, "FLOAT"@, "DOUBLE"@].contains(w)
}

/// The words for texts.
pub open spec fn is_text_word(w: Seq<char>) -> bool {
    seq!["TEXT"@, "VARCHAR"@, "CHAR"@, "CLOB"@].contains(w)
}

/// The words for types are different.
proof fn lemma_type_words(w: Seq<char>)
    ensures
        is_integer_word(w) <==> w == "INT"@ || w == "INTEGER"@ || w == "BIGINT"@ || w
            == "SMALLINT"@ || w == "TINYINT"@ || w == "MEDIUMINT"@ || w == "INT2"@ || w == "INT8"@,
        is_real_word(w) <==> w == "REAL"@ || w == "FLOAT"@ || w == "DOUBLE"@,
        is_text_word(w) <==> w == "TEXT"@ || w == "VARCHAR"@ || w == "CHAR"@ || w == "CLOB"@,
        is_integer_word(w) ==> !is_real_word(w) && !is_text_word(w) && w != "BLOB"@,
        is_real_word(w) ==> !is_text_word(w) && w != "BLOB"@,
        is_text_word(w) ==> w != "BLOB"@,
{
    let a = seq![
        "INT"@,
        "INTEGER"@,
        "BIGINT"@,
        "SMALLINT"@,
        "TINYINT"@,
        "MEDIUMINT"@,
        "INT2"@,
        "INT8"@,
    ];
    let b = seq!["REAL"@, "FLOAT"@, "DOUBLE"@];
    let c = seq!["TEXT"@, "VARCHAR"@, "CHAR"@, "CLOB"@];
    assert(a[0] == "INT"@ && a[1] == "INTEGER"@ && a[2] == "BIGINT"@ && a[3] == "SMALLINT"@ && a[4]
        == "TINYINT"@ && a[5] == "MEDIUMINT"@ && a[6] == "INT2"@ && a[7] == "INT8"@);
    assert(b[0] == "REAL"@ && b[1] == "FLOAT"@ && b[2] == "DOUBLE"@);
    assert(c[0] == "TEXT"@ && c[1] == "VARCHAR"@ && c[2] == "CHAR"@ && c[3] == "CLOB"@);
    reveal_strlit("INT");
    reveal_strlit("INTEGER");
    reveal_strlit("BIGINT");
    reveal_strlit("SMALLINT");
    reveal_strlit("TINYINT");
    reveal_strlit("MEDIUMINT");
    reveal_strlit("INT2");
    reveal_strlit("INT8");
    reveal_strlit("REAL");
    reveal_strlit("FLOAT");
    reveal_strlit("DOUBLE");
    reveal_strlit("TEXT");
    reveal_strlit("VARCHAR");
    reveal_strlit("CHAR");
    reveal_strlit("CLOB");
    reveal_strlit("BLOB");
    assert("INT"@[0] == 'I' && "INTEGER"@[0] == 'I' && "BIGINT"@[0] == 'B' && "SMALLINT"@[0] == 'S'
        && "TINYINT"@[0] == 'T' && "MEDIUMINT"@[0] == 'M' && "INT2"@[0] == 'I' && "INT8"@[0]
        == 'I');
    assert("BIGINT"@[1] == 'I' && "TINYINT"@[1] == 'I');
    assert("REAL"@[0] == 'R' && "FLOAT"@[0] == 'F' && "DOUBLE"@[0] == 'D');
    assert("TEXT"@[0] == 'T' && "TEXT"@[1] == 'E' && "VARCHAR"@[0] == 'V' && "CHAR"@[0] == 'C'
        && "CLOB"@[0] == 'C');
    assert("BLOB"@[0] == 'B' && "BLOB"@[1] == 'L');
}

/// The first word of a declaration, in upper case.
pub open spec fn first_word(decl: Seq<char>) -> Seq<char> {
    crate::text::uppercase(
        if crate::text::split_words(decl).len() > 0 {
            crate::text::split_words(decl)[0]
        } else {
            seq![]
        },
    )
}

/// A strict table passes exactly if each cell is of the type that its column declares, or
/// null; any other table passes.
pub proof fn law_strict_passes(t: TableModel)
    ensures
        crate::constraints::strict_violations(t).len() == 0 <==> (t.schema.strict ==> forall|
            c: int,
            j: int,
        |
            0 <= c < t.schema.columns.len() && 0 <= j < t.rows.len() && c < t.rows[j].len()
                ==> belongs(first_word(t.schema.columns[c].decl), #[trigger] t.rows[j][c])),
{
    let n = t.rows.len() as int;
    let w = t.schema.columns.len() as int;
    let f = crate::constraints::strict_column(t);
    lemma_gather_empty(w, f);
    assert forall|c: int, j: int|
        0 <= c < w && 0 <= j < n && c < t.rows[j].len() implies crate::constraints::fits_type(
        crate::constraints::type_of(t.schema.columns[c].decl),
        #[trigger] t.rows[j][c],
    ) == belongs(first_word(t.schema.columns[c].decl), t.rows[j][c]) by {
        lemma_type_words(first_word(t.schema.columns[c].decl));
    }
    assert forall|c: int| 0 <= c < w implies ((#[trigger] f(c)).len() == 0 <==> forall|j: int|
        0 <= j < n && c < t.rows[j].len() ==> belongs(
            first_word(t.schema.columns[c].decl),
            #[trigger] t.rows[j][c],
        )) by {
        let g = crate::constraints::strict_row(t, c);
        lemma_gather_empty(n, g);
        assert forall|j: int| 0 <= j < n implies ((#[trigger] g(j)).len() == 0 <==> (c
            < t.rows[j].len() ==> belongs(first_word(t.schema.columns[c].decl), t.rows[j][c]))) by {
            if c < t.rows[j].len() {
                let x = t.rows[j][c];
                assert(crate::merge::cell_at(t.rows[j], c) == Some(x));
            }
        }
        if f(c).len() == 0 {
            assert forall|j: int| 0 <= j < n && c < t.rows[j].len() implies belongs(
                first_word(t.schema.columns[c].decl),
                #[trigger] t.rows[j][c],
            ) by {
                assert(g(j).len() == 0);
            }
        }
        if forall|j: int|
            0 <= j < n && c < t.rows[j].len() ==> belongs(
                first_word(t.schema.columns[c].decl),
                #[trigger] t.rows[j][c],
            ) {
            assert forall|j: int| 0 <= j < n implies (#[trigger] g(j)).len() == 0 by {}
        }
    }
    if t.schema.strict && crate::constraints::strict_violations(t).len() == 0 {
        assert forall|c: int, j: int|
            0 <= c < w && 0 <= j < n && c < t.rows[j].len() implies belongs(
            first_word(t.schema.columns[c].decl),
            #[trigger] t.rows[j][c],
        ) by {
            assert(f(c).len() == 0);
        }
    }
}

/// Could a check be judged, and is it not false?
pub open spec fn is_kept(judged: Option<crate::checks::Truth>) -> bool {
    judged is Some && judged != Some(Some(false))
}

/// A table passes its checks exactly if each of them can be judged for each row and is
/// nowhere false.
pub proof fn law_checks_pass(t: TableModel)
    ensures
        crate::constraints::check_violations(t).len() == 0 <==> forall|k: int, j: int|
            0 <= k < crate::constraints::checks_of(t.schema).len() && 0 <= j < t.rows.len()
                ==> is_kept(
                #[trigger] crate::checks::check_of(
                    crate::constraints::checks_of(t.schema)[k],
                    t.rows[j],
                    crate::constraints::names(t.schema.columns),
                ),
            ),
{
    let n = t.rows.len() as int;
    let exprs = crate::constraints::checks_of(t.schema);
    let names = crate::constraints::names(t.schema.columns);
    let w = exprs.len() as int;
    let f = crate::constraints::check_table(t);
    lemma_gather_empty(w, f);
    assert forall|k: int| 0 <= k < w implies ((#[trigger] f(k)).len() == 0 <==> forall|j: int|
        0 <= j < n ==> is_kept(#[trigger] crate::checks::check_of(exprs[k], t.rows[j], names))) by {
        let g = crate::constraints::check_row(t, exprs[k]);
        lemma_gather_empty(n, g);
        assert forall|j: int| 0 <= j < n implies ((#[trigger] g(j)).len() == 0 <==> is_kept(
            crate::checks::check_of(exprs[k], t.rows[j], names),
        )) by {}
        if f(k).len() == 0 {
            assert forall|j: int| 0 <= j < n implies is_kept(
                #[trigger] crate::checks::check_of(exprs[k], t.rows[j], names),
            ) by {
                assert(g(j).len() == 0);
            }
        }
        if forall|j: int|
            0 <= j < n ==> is_kept(
                #[trigger] crate::checks::check_of(exprs[k], t.rows[j], names),
            ) {
            assert forall|j: int| 0 <= j < n implies (#[trigger] g(j)).len() == 0 by {
                assert(is_kept(crate::checks::check_of(exprs[k], t.rows[j], names)));
            }
        }
    }
    if crate::constraints::check_violations(t).len() == 0 {
        assert forall|k: int, j: int| 0 <= k < w && 0 <= j < n implies is_kept(
            #[trigger] crate::checks::check_of(exprs[k], t.rows[j], names),
        ) by {
            assert(f(k).len() == 0);
        }
    }
}

/// Two rows have one key, free of nulls, exactly if they agree on its columns.
proof fn lemma_same_key(t: TableModel, i: int, j: int, set: Seq<Seq<char>>)
    requires
        is_regular(t.schema.columns, t.rows),
        all_columns(t.schema.columns, set),
        0 <= i < t.rows.len(),
        0 <= j < t.rows.len(),
    ensures
        crate::constraints::key_of(t, i, set) == crate::constraints::key_of(t, j, set)
            && !crate::constraints::key_of(t, j, set).contains(VcValue::Null) <==> agree_on(
            t.schema.columns,
            t.rows[i],
            set,
            t.schema.columns,
            t.rows[j],
            set,
        ),
{
    let columns = t.schema.columns;
    let names = crate::constraints::names(columns);
    let a = crate::constraints::key_of(t, i, set);
    let b = crate::constraints::key_of(t, j, set);
    let r = t.rows[i];
    let q = t.rows[j];
    assert forall|k: int| 0 <= k < set.len() implies names.contains(#[trigger] set[k]) by {
        let c = choose|c: int| 0 <= c < columns.len() && (#[trigger] columns[c]).name == set[k];
        assert(names[c] == set[k]);
    }
    assert forall|k: int| 0 <= k < set.len() implies a.len() == set.len() && b.len() == set.len()
        && cell_is(columns, r, #[trigger] set[k], a[k]) && cell_is(columns, q, set[k], b[k]) by {
        let c = crate::merge::law_key_is_made_of_cells(r, set, names, k);
        let d = crate::merge::law_key_is_made_of_cells(q, set, names, k);
        assert(columns[c].name == names[c]);
        assert(columns[d].name == names[d]);
    }
    if set.len() == 0 {
        assert(a =~= b);
    } else {
        let _ = crate::merge::law_key_is_made_of_cells(r, set, names, 0);
        let _ = crate::merge::law_key_is_made_of_cells(q, set, names, 0);
    }
    if a == b && !b.contains(VcValue::Null) {
        assert forall|k: int| 0 <= k < set.len() implies share_cell(
            columns,
            r,
            #[trigger] set[k],
            columns,
            q,
            set[k],
        ) by {
            assert(b.contains(b[k]));
            assert(cell_is(columns, r, set[k], b[k]));
        }
    }
    if agree_on(columns, r, set, columns, q, set) {
        assert forall|k: int| 0 <= k < set.len() implies a[k] == b[k] && !(#[trigger] b[k] is Null) by {
            assert(cell_is(columns, r, set[k], a[k]) && cell_is(columns, q, set[k], b[k]));
            assert(share_cell(columns, r, set[k], columns, q, set[k]));
            let cell = choose|cell: CellModel|
                !(cell is Null) && #[trigger] cell_is(columns, r, set[k], cell) && cell_is(
                    columns,
                    q,
                    set[k],
                    cell,
                );
            lemma_named_cell(columns, r, set[k], cell);
            lemma_named_cell(columns, r, set[k], a[k]);
            lemma_named_cell(columns, q, set[k], cell);
            lemma_named_cell(columns, q, set[k], b[k]);
        }
        assert(a =~= b);
        if b.contains(VcValue::Null) {
            let k = choose|k: int| 0 <= k < b.len() && b[k] == CellModel::Null;
            assert(b[k] is Null);
        }
    }
}

/// A table passes its unique columns exactly if no two rows agree, free of nulls, on all
/// columns of one of its unique sets; a set that names a column that is not there is left.
pub proof fn law_unique_passes(t: TableModel)
    requires
        is_regular(t.schema.columns, t.rows),
    ensures
        crate::constraints::unique_violations(t).len() == 0 <==> forall|k: int, i: int, j: int|
            0 <= k < crate::constraints::unique_sets(t.schema).len() && 0 <= i < j < t.rows.len()
                && all_columns(
                t.schema.columns,
                crate::constraints::unique_sets(t.schema)[k],
            ) ==> !#[trigger] agree_on(
                t.schema.columns,
                t.rows[i],
                crate::constraints::unique_sets(t.schema)[k],
                t.schema.columns,
                t.rows[j],
                crate::constraints::unique_sets(t.schema)[k],
            ),
{
    let n = t.rows.len() as int;
    let cols = t.schema.columns;
    let sets = crate::constraints::unique_sets(t.schema);
    let w = sets.len() as int;
    let f = crate::constraints::unique_set(t);
    lemma_gather_empty(w, f);
    assert forall|k: int| 0 <= k < w implies ((#[trigger] f(k)).len() == 0 <==> (all_columns(
        cols,
        sets[k],
    ) ==> forall|i: int, j: int|
        0 <= i < j < n ==> !#[trigger] agree_on(
            cols,
            t.rows[i],
            sets[k],
            cols,
            t.rows[j],
            sets[k],
        ))) by {
        let set = sets[k];
        lemma_all_found(cols, set);
        let g = crate::constraints::unique_row(t, set);
        lemma_gather_empty(n, g);
        if all_columns(cols, set) {
            if f(k).len() == 0 {
                assert forall|i: int, j: int| 0 <= i < j < n implies !#[trigger] agree_on(
                    cols,
                    t.rows[i],
                    set,
                    cols,
                    t.rows[j],
                    set,
                ) by {
                    assert(g(j).len() == 0);
                    lemma_same_key(t, i, j, set);
                    if crate::constraints::key_of(t, i, set) == crate::constraints::key_of(
                        t,
                        j,
                        set,
                    ) {
                        assert(crate::constraints::repeats(t, j, set));
                    }
                }
            }
            if forall|i: int, j: int|
                0 <= i < j < n ==> !#[trigger] agree_on(
                    cols,
                    t.rows[i],
                    set,
                    cols,
                    t.rows[j],
                    set,
                ) {
                assert forall|j: int| 0 <= j < n implies (#[trigger] g(j)).len() == 0 by {
                    if crate::constraints::repeats(t, j, set) {
                        let i = choose|i: int|
                            0 <= i < j && #[trigger] crate::constraints::key_of(t, i, set)
                                == crate::constraints::key_of(t, j, set);
                        lemma_same_key(t, i, j, set);
                        assert(!agree_on(cols, t.rows[i], set, cols, t.rows[j], set));
                    }
                }
            }
        }
    }
    if crate::constraints::unique_violations(t).len() == 0 {
        assert forall|k: int, i: int, j: int|
            0 <= k < w && 0 <= i < j < n && all_columns(cols, sets[k]) implies !#[trigger] agree_on(
            cols,
            t.rows[i],
            sets[k],
            cols,
            t.rows[j],
            sets[k],
        ) by {
            assert(f(k).len() == 0);
        }
    }
}

/// Does a row have a cell other than null in the column of a name?
pub open spec fn has_value(columns: Seq<ColModel>, row: RowModel, name: Seq<char>) -> bool {
    exists|cell: CellModel| !(cell is Null) && #[trigger] cell_is(columns, row, name, cell)
}

/// Does a row have a cell other than null in each of these columns?
pub open spec fn is_filled(columns: Seq<ColModel>, row: RowModel, names: Seq<Seq<char>>) -> bool {
    forall|k: int| 0 <= k < names.len() ==> has_value(columns, row, #[trigger] names[k])
}

proof fn lemma_fk_key(columns: Seq<ColModel>, row: RowModel, wanted: Seq<Seq<char>>)
    requires
        row.len() == columns.len(),
        forall|c: int, d: int|
            0 <= c < d < columns.len() ==> (#[trigger] columns[c]).name != (
            #[trigger] columns[d]).name,
    ensures
        ({
            let key = crate::constraints::fk_key(row, crate::constraints::names(columns), wanted);
            &&& key is Some <==> is_filled(columns, row, wanted)
            &&& key matches Some(cells) ==> cells.len() == wanted.len() && forall|k: int|
                0 <= k < wanted.len() ==> !(cells[k] is Null) && cell_is(
                    columns,
                    row,
                    #[trigger] wanted[k],
                    cells[k],
                )
        }),
{
    let names = crate::constraints::names(columns);
    let key = crate::constraints::fk_key(row, names, wanted);
    if key is Some {
        let cells = key->0;
        assert forall|k: int| 0 <= k < wanted.len() implies !(cells[k] is Null) && cell_is(
            columns,
            row,
            #[trigger] wanted[k],
            cells[k],
        ) by {
            assert(crate::constraints::has_cell(row, names, wanted[k]));
            lemma_named_cell(columns, row, wanted[k], cells[k]);
        }
        assert forall|k: int| 0 <= k < wanted.len() implies has_value(
            columns,
            row,
            #[trigger] wanted[k],
        ) by {
            assert(cell_is(columns, row, wanted[k], cells[k]));
        }
    }
    if is_filled(columns, row, wanted) {
        assert forall|k: int| 0 <= k < wanted.len() implies crate::constraints::has_cell(
            row,
            names,
            #[trigger] wanted[k],
        ) by {
            assert(has_value(columns, row, wanted[k]));
            let cell = choose|cell: CellModel|
                !(cell is Null) && #[trigger] cell_is(columns, row, wanted[k], cell);
            lemma_named_cell(columns, row, wanted[k], cell);
        }
    }
}

/// The rows of a foreign key whose columns all exist pass exactly if each of them has a null
/// in the key, or a row of the parent table agrees with it.
pub proof fn law_foreign_key_passes(
    tables: Seq<TableModel>,
    schemas: Seq<SchemaModel>,
    t: TableModel,
    fk: FkModel,
    parent: SchemaModel,
)
    requires
        is_regular(t.schema.columns, t.rows),
        is_regular(
            parent.columns,
            crate::constraints::rows_named(tables, fk.parent_table),
        ),
        crate::constraints::schema_named(schemas, fk.parent_table) == Some(parent),
        all_columns(t.schema.columns, fk.columns),
        all_columns(parent.columns, fk.parent_columns),
        fk.columns.len() == fk.parent_columns.len(),
    ensures
        crate::constraints::fk_violations(tables, schemas, t, fk).len() == 0 <==> forall|j: int|
            0 <= j < t.rows.len() && is_filled(
                t.schema.columns,
                #[trigger] t.rows[j],
                fk.columns,
            ) ==> exists|i: int|
                0 <= i < crate::constraints::rows_named(tables, fk.parent_table).len() && agree_on(
                    t.schema.columns,
                    t.rows[j],
                    fk.columns,
                    parent.columns,
                    #[trigger] crate::constraints::rows_named(tables, fk.parent_table)[i],
                    fk.parent_columns,
                ),
{
    let n = t.rows.len() as int;
    let cols = t.schema.columns;
    let rows = crate::constraints::rows_named(tables, fk.parent_table);
    lemma_all_found(cols, fk.columns);
    lemma_all_found(parent.columns, fk.parent_columns);
    let g = crate::constraints::dangling_row(t, fk, parent, rows);
    lemma_gather_empty(n, g);
    let names = crate::constraints::names(cols);
    let pnames = crate::constraints::names(parent.columns);
    assert forall|j: int| 0 <= j < n implies ((#[trigger] g(j)).len() == 0 <==> (is_filled(
        cols,
        t.rows[j],
        fk.columns,
    ) ==> exists|i: int|
        0 <= i < rows.len() && agree_on(
            cols,
            t.rows[j],
            fk.columns,
            parent.columns,
            #[trigger] rows[i],
            fk.parent_columns,
        ))) by {
        let row = t.rows[j];
        lemma_fk_key(cols, row, fk.columns);
        if let Some(key) = crate::constraints::fk_key(row, names, fk.columns) {
            assert forall|i: int| 0 <= i < rows.len() implies (crate::constraints::fk_key(
                #[trigger] rows[i],
                pnames,
                fk.parent_columns,
            ) == Some(key) <==> agree_on(
                cols,
                row,
                fk.columns,
                parent.columns,
                rows[i],
                fk.parent_columns,
            )) by {
                lemma_parent_row(cols, row, parent.columns, rows[i], fk, key);
            }
            if crate::constraints::parent_has(rows, pnames, fk.parent_columns, key) {
                let i = choose|i: int|
                    0 <= i < rows.len() && crate::constraints::fk_key(
                        #[trigger] rows[i],
                        pnames,
                        fk.parent_columns,
                    ) == Some(key);
                assert(agree_on(
                    cols,
                    row,
                    fk.columns,
                    parent.columns,
                    rows[i],
                    fk.parent_columns,
                ));
            }
        }
    }
    if crate::constraints::fk_violations(tables, schemas, t, fk).len() == 0 {
        assert forall|j: int|
            0 <= j < n && is_filled(cols, #[trigger] t.rows[j], fk.columns) implies exists|i: int|
            0 <= i < rows.len() && agree_on(
                cols,
                t.rows[j],
                fk.columns,
                parent.columns,
                #[trigger] rows[i],
                fk.parent_columns,
            ) by {
            assert(g(j).len() == 0);
        }
    }
    if forall|j: int|
        0 <= j < n && is_filled(cols, #[trigger] t.rows[j], fk.columns) ==> exists|i: int|
            0 <= i < rows.len() && agree_on(
                cols,
                t.rows[j],
                fk.columns,
                parent.columns,
                #[trigger] rows[i],
                fk.parent_columns,
            ) {
        assert forall|j: int| 0 <= j < n implies (#[trigger] g(j)).len() == 0 by {
            assert(t.rows[j] == t.rows[j]);
        }
    }
}

proof fn lemma_parent_row(
    cols: Seq<ColModel>,
    row: RowModel,
    others: Seq<ColModel>,
    other: RowModel,
    fk: FkModel,
    key: RowModel,
)
    requires
        is_regular(cols, seq![row]),
        is_regular(others, seq![other]),
        fk.columns.len() == fk.parent_columns.len(),
        crate::constraints::fk_key(row, crate::constraints::names(cols), fk.columns) == Some(key),
    ensures
        crate::constraints::fk_key(other, crate::constraints::names(others), fk.parent_columns)
            == Some(key) <==> agree_on(cols, row, fk.columns, others, other, fk.parent_columns),
{
    assert(seq![row][0] == row && seq![other][0] == other);
    lemma_fk_key(cols, row, fk.columns);
    lemma_fk_key(others, other, fk.parent_columns);
    let n = fk.columns.len() as int;
    let got = crate::constraints::fk_key(
        other,
        crate::constraints::names(others),
        fk.parent_columns,
    );
    if got == Some(key) {
        assert forall|k: int| 0 <= k < n implies share_cell(
            cols,
            row,
            #[trigger] fk.columns[k],
            others,
            other,
            fk.parent_columns[k],
        ) by {
            assert(cell_is(cols, row, fk.columns[k], key[k]));
            assert(cell_is(others, other, fk.parent_columns[k], key[k]));
        }
    }
    if agree_on(cols, row, fk.columns, others, other, fk.parent_columns) {
        assert forall|k: int| 0 <= k < n implies has_value(
            others,
            other,
            #[trigger] fk.parent_columns[k],
        ) by {
            assert(share_cell(
                cols,
                row,
                fk.columns[k],
                others,
                other,
                fk.parent_columns[k],
            ));
        }
        assert(is_filled(others, other, fk.parent_columns));
        let cells = got->0;
        assert forall|k: int| 0 <= k < n implies cells[k] == key[k] by {
            assert(cell_is(cols, row, fk.columns[k], key[k]));
            assert(cell_is(others, other, fk.parent_columns[k], cells[k]));
            assert(share_cell(
                cols,
                row,
                fk.columns[k],
                others,
                other,
                fk.parent_columns[k],
            ));
            let cell = choose|cell: CellModel|
                !(cell is Null) && #[trigger] cell_is(cols, row, fk.columns[k], cell) && cell_is(
                    others,
                    other,
                    fk.parent_columns[k],
                    cell,
                );
            lemma_named_cell(cols, row, fk.columns[k], cell);
            lemma_named_cell(cols, row, fk.columns[k], key[k]);
            lemma_named_cell(others, other, fk.parent_columns[k], cell);
            lemma_named_cell(others, other, fk.parent_columns[k], cells[k]);
        }
        assert(cells =~= key);
    }
}

// ---------------------------------------------------------------------------
// What schemas demand
// ---------------------------------------------------------------------------

/// Is there a list of names in parentheses from a place on: words other than marks, with
/// commas between them?
pub open spec fn is_name_list(toks: Seq<Seq<char>>, at: int, names: Seq<Seq<char>>) -> bool {
    &&& names.len() > 0
    &&& 0 <= at && at + 2 * names.len() < toks.len()
    &&& toks[at] == "("@
    &&& toks[at + 2 * names.len()] == ")"@
    &&& forall|k: int|
        0 <= k < names.len() ==> toks[at + 1 + 2 * k] != ","@ && toks[at + 1 + 2 * k] != ")"@
            && crate::sql::unquoted(toks[at + 1 + 2 * k]) == #[trigger] names[k]
    &&& forall|k: int| 0 <= k < names.len() - 1 ==> #[trigger] toks[at + 2 + 2 * k] == ","@
}

/// A list of names in parentheses is read as these names, up to behind it.
pub proof fn law_name_list_reads(toks: Seq<Seq<char>>, at: int, names: Seq<Seq<char>>)
    requires
        is_name_list(toks, at, names),
    ensures
        crate::sql::paren_list(toks, at) == Some((names, at + 2 * names.len() + 1)),
{
    reveal_strlit(",");
    reveal_strlit(")");
    assert(","@[0] == ',' && ")"@[0] == ')');
    let n = names.len() as int;
    let end = at + 2 * n;
    assert forall|i: int| at + 1 <= i < end implies toks[i] != ")"@ by {
        let d = i - at - 1;
        if d % 2 == 0 {
            let k = d / 2;
            assert(names[k] == names[k]);
            assert(i == at + 1 + 2 * k);
        } else {
            let k = d / 2;
            assert(i == at + 2 + 2 * k);
            assert(toks[at + 2 + 2 * k] == ","@);
        }
    }
    lemma_close(toks, at + 1, end);
    lemma_names_up_to(toks, at, names, n);
    assert(names.take(n) =~= names);
}

proof fn lemma_close(toks: Seq<Seq<char>>, i: int, j: int)
    requires
        0 <= i <= j < toks.len(),
        toks[j] == ")"@,
        forall|k: int| i <= k < j ==> toks[k] != ")"@,
    ensures
        crate::sql::close_at(toks, i) == j,
    decreases j - i,
{
    if i < j {
        lemma_close(toks, i + 1, j);
    }
}

proof fn lemma_names_up_to(toks: Seq<Seq<char>>, at: int, names: Seq<Seq<char>>, k: int)
    requires
        is_name_list(toks, at, names),
        1 <= k <= names.len(),
    ensures
        crate::sql::names_between(toks, at + 1, at + 2 * k) == names.take(k),
    decreases k,
{
    assert(names[k - 1] == names[k - 1]);
    assert(names.take(k) =~= names.take(k - 1).push(names[k - 1]));
    let b = at + 2 * k;
    assert(toks[b - 1] == toks[at + 1 + 2 * (k - 1)]);
    if k > 1 {
        lemma_names_up_to(toks, at, names, k - 1);
        assert(toks[at + 2 + 2 * (k - 2)] == ","@);
        assert(crate::sql::names_between(toks, at + 1, b - 1) == names.take(k - 1));
    } else {
        assert(crate::sql::names_between(toks, at + 1, b - 1) =~= names.take(0));
    }
}

/// The unique sets of a schema are its key, each column that says so, and the list of each
/// `UNIQUE (..)` constraint, and no others.
pub proof fn law_unique_sets_are_declared(s: SchemaModel, set: Seq<Seq<char>>)
    ensures
        crate::constraints::unique_sets(s).contains(set) <==> {
            ||| s.pk.len() > 0 && set == s.pk
            ||| exists|c: int|
                0 <= c < s.columns.len() && set == seq![(#[trigger] s.columns[c]).name]
                    && exists|i: int|
                    0 <= i < crate::text::split_words(s.columns[c].decl).len()
                        && crate::text::ascii_uppercase(
                        #[trigger] crate::text::split_words(s.columns[c].decl)[i],
                    ) == crate::text::ascii_uppercase("UNIQUE"@)
            ||| exists|k: int|
                0 <= k < s.constraints.len() && crate::sql::is_word(
                    crate::sql::words(#[trigger] s.constraints[k]),
                    0,
                    "UNIQUE"@,
                ) && (crate::sql::paren_list(crate::sql::words(s.constraints[k]), 1) matches Some(
                    r,
                ) && r.0 == set)
        },
{
    let a = crate::constraints::flag(s.pk.len() > 0, s.pk);
    let f = crate::constraints::unique_column(s);
    let g = crate::constraints::unique_constraint(s);
    let n = s.columns.len() as int;
    let m = s.constraints.len() as int;
    let b = crate::constraints::gather(n, f);
    let c = crate::constraints::gather(m, g);
    crate::constraints::lemma_contains_either(a, b, set);
    crate::constraints::lemma_contains_either(a + b, c, set);
    crate::constraints::lemma_gather_contains(n, f, set);
    crate::constraints::lemma_gather_contains(m, g, set);
    if s.pk.len() > 0 {
        assert(a[0] == s.pk);
    }
    assert forall|i: int| 0 <= i < n implies ((#[trigger] f(i)).contains(set) <==> set
        == seq![s.columns[i].name] && crate::constraints::says_unique(s.columns[i].decl)) by {
        if crate::constraints::says_unique(s.columns[i].decl) {
            assert(f(i)[0] == seq![s.columns[i].name]);
        }
    }
    assert forall|k: int| 0 <= k < m implies ((#[trigger] g(k)).contains(set) <==>
        crate::constraints::unique_list(s.constraints[k]) == Some(set)) by {
        if let Some(x) = crate::constraints::unique_list(s.constraints[k]) {
            assert(g(k)[0] == x);
        }
    }
    if b.contains(set) {
        let i = choose|i: int| 0 <= i < n && (#[trigger] f(i)).contains(set);
        assert(s.columns[i].name == s.columns[i].name);
    }
    if c.contains(set) {
        let k = choose|k: int| 0 <= k < m && (#[trigger] g(k)).contains(set);
        assert(s.constraints[k] == s.constraints[k]);
    }
    if exists|i: int|
        0 <= i < n && set == seq![(#[trigger] s.columns[i]).name] && crate::constraints::says_unique(
            s.columns[i].decl,
        ) {
        let i = choose|i: int|
            0 <= i < n && set == seq![(#[trigger] s.columns[i]).name]
                && crate::constraints::says_unique(s.columns[i].decl);
        assert(f(i).contains(set));
    }
    if exists|k: int|
        0 <= k < m && crate::constraints::unique_list(#[trigger] s.constraints[k]) == Some(set) {
        let k = choose|k: int|
            0 <= k < m && crate::constraints::unique_list(#[trigger] s.constraints[k]) == Some(set);
        assert(g(k).contains(set));
    }
}

/// A `FOREIGN KEY` constraint declares the columns, the parent table and the parent columns
/// that it names; without parent columns they have the same names.
pub proof fn law_foreign_key_reads(
    constraint: Seq<char>,
    columns: Seq<Seq<char>>,
    parents: Seq<Seq<char>>,
)
    requires
        ({
            let toks = crate::sql::words(constraint);
            let i = 3int + 2 * columns.len();
            &&& crate::sql::is_word(toks, 0, "FOREIGN"@)
            &&& crate::sql::is_word(toks, 1, "KEY"@)
            &&& is_name_list(toks, 2, columns)
            &&& crate::sql::is_word(toks, i, "REFERENCES"@)
            &&& i + 1 < toks.len()
            &&& i + 2 < toks.len() && toks[i + 2] == "("@ ==> is_name_list(toks, i + 2, parents)
        }),
    ensures
        ({
            let toks = crate::sql::words(constraint);
            let i = 3int + 2 * columns.len();
            crate::constraints::table_fk(constraint) matches Some(fk) && {
                &&& fk.columns == columns
                &&& fk.parent_table == crate::sql::unquoted(toks[i + 1])
                &&& fk.parent_columns == if i + 2 < toks.len() && toks[i + 2] == "("@ {
                    parents
                } else {
                    columns
                }
            }
        }),
{
    let toks = crate::sql::words(constraint);
    reveal_strlit("(");
    law_name_list_reads(toks, 2, columns);
    let i = 3int + 2 * columns.len();
    if i + 2 < toks.len() && toks[i + 2] == "("@ {
        law_name_list_reads(toks, i + 2, parents);
    }
}

/// The foreign keys of a schema are those that its constraints and columns declare.
pub proof fn law_foreign_keys_are_declared(s: SchemaModel, fk: FkModel)
    ensures
        crate::constraints::foreign_keys(s).contains(fk) <==> {
            ||| exists|k: int|
                0 <= k < s.constraints.len() && crate::constraints::table_fk(
                    #[trigger] s.constraints[k],
                ) == Some(fk)
            ||| exists|c: int|
                0 <= c < s.columns.len() && crate::constraints::column_fk(
                    (#[trigger] s.columns[c]).name,
                    s.columns[c].decl,
                ) == Some(fk)
        },
{
    let f = crate::constraints::constraint_fk(s);
    let g = crate::constraints::own_fk(s);
    let m = s.constraints.len() as int;
    let n = s.columns.len() as int;
    let a = crate::constraints::gather(m, f);
    let b = crate::constraints::gather(n, g);
    crate::constraints::lemma_contains_either(a, b, fk);
    crate::constraints::lemma_gather_contains(m, f, fk);
    crate::constraints::lemma_gather_contains(n, g, fk);
    assert forall|k: int| 0 <= k < m implies ((#[trigger] f(k)).contains(fk) <==>
        crate::constraints::table_fk(s.constraints[k]) == Some(fk)) by {
        if let Some(x) = crate::constraints::table_fk(s.constraints[k]) {
            assert(f(k)[0] == x);
        }
    }
    assert forall|c: int| 0 <= c < n implies ((#[trigger] g(c)).contains(fk) <==>
        crate::constraints::column_fk(s.columns[c].name, s.columns[c].decl) == Some(fk)) by {
        if let Some(x) = crate::constraints::column_fk(s.columns[c].name, s.columns[c].decl) {
            assert(g(c)[0] == x);
        }
    }
    if a.contains(fk) {
        let k = choose|k: int| 0 <= k < m && (#[trigger] f(k)).contains(fk);
        assert(crate::constraints::table_fk(s.constraints[k]) == Some(fk));
    }
    if b.contains(fk) {
        let c = choose|c: int| 0 <= c < n && (#[trigger] g(c)).contains(fk);
        assert(crate::constraints::column_fk(s.columns[c].name, s.columns[c].decl) == Some(fk));
    }
    if exists|k: int|
        0 <= k < m && crate::constraints::table_fk(#[trigger] s.constraints[k]) == Some(fk) {
        let k = choose|k: int|
            0 <= k < m && crate::constraints::table_fk(#[trigger] s.constraints[k]) == Some(fk);
        assert(f(k).contains(fk));
    }
    if exists|c: int|
        0 <= c < n && crate::constraints::column_fk(
            (#[trigger] s.columns[c]).name,
            s.columns[c].decl,
        ) == Some(fk) {
        let c = choose|c: int|
            0 <= c < n && crate::constraints::column_fk(
                (#[trigger] s.columns[c]).name,
                s.columns[c].decl,
            ) == Some(fk);
        assert(g(c).contains(fk));
    }
}

} // verus!
