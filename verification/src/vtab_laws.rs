//! What the virtual tables show.

use vstd::prelude::*;

use crate::conflicts::EntryModel;
use crate::values::{CellModel, RowModel, VcValue};
use crate::vtab::{DiffType, TableDiffModel};

verus! {

/// A quoted name reads back as the name, quotes in it and all.
pub proof fn law_quoted_name_reads_back(name: Seq<char>)
    ensures
        crate::sql::unquoted(crate::vtab::quoted(name)) == name,
{
    reveal_strlit("\"");
    let d = crate::vtab::doubled(name);
    let q = crate::vtab::quoted(name);
    assert("\""@ =~= seq!['"']);
    assert(q[0] == '"' && q.last() == '"');
    assert(q.subrange(1, q.len() - 1) =~= d);
    lemma_doubled(name, seq![]);
    assert(d + Seq::<char>::empty() =~= d);
    assert(crate::sql::undouble(seq![], '"') =~= seq![]);
    assert(name + Seq::<char>::empty() =~= name);
}

/// What was doubled is made single again, whatever comes behind it.
proof fn lemma_doubled(s: Seq<char>, rest: Seq<char>)
    requires
        rest.len() == 0 || rest[0] != '"' || rest.len() >= 2 && rest[1] == '"',
    ensures
        crate::sql::undouble(crate::vtab::doubled(s) + rest, '"') == s + crate::sql::undouble(
            rest,
            '"',
        ),
    decreases s.len(),
{
    if s.len() == 0 {
        assert(crate::vtab::doubled(s) + rest =~= rest);
        assert(s + crate::sql::undouble(rest, '"') =~= crate::sql::undouble(rest, '"'));
    } else {
        let d = s.drop_last();
        let c = s.last();
        let part = if c == '"' {
            seq!['"', '"']
        } else {
            seq![c]
        };
        let more = part + rest;
        assert(crate::vtab::doubled(s) + rest =~= crate::vtab::doubled(d) + more);
        lemma_doubled(d, more);
        if c == '"' {
            assert(more[0] == '"' && more[1] == '"');
            assert(more.skip(2) =~= rest);
        } else {
            assert(more[0] == c);
            assert(more.skip(1) =~= rest);
        }
        assert(crate::sql::undouble(more, '"') == seq![c] + crate::sql::undouble(rest, '"'));
        assert(d + (seq![c] + crate::sql::undouble(rest, '"')) =~= s + crate::sql::undouble(
            rest,
            '"',
        ));
    }
}

/// The pieces of a text, put together again with the character between them, are the text,
/// and none of them holds the character.
pub proof fn law_pieces_make_the_text(s: Seq<char>, c: char)
    ensures
        crate::vtab::pieces(s, c).len() > 0,
        crate::text::joined(crate::vtab::pieces(s, c), seq![c]) == s,
        forall|i: int|
            0 <= i < crate::vtab::pieces(s, c).len() ==> !(
            #[trigger] crate::vtab::pieces(s, c)[i]).contains(c),
    decreases s.len(),
{
    let p = crate::vtab::pieces(s, c);
    if s.len() == 0 {
        assert(p[0] =~= seq![]);
        assert(s =~= seq![]);
    } else {
        let d = s.drop_last();
        let before = crate::vtab::pieces(d, c);
        law_pieces_make_the_text(d, c);
        if s.last() == c {
            assert(p.drop_last() =~= before);
            assert(p.last() =~= seq![]);
            assert(d + seq![c] + Seq::<char>::empty() =~= s);
        } else {
            let last = before.last().push(s.last());
            assert(p.drop_last() =~= before.drop_last());
            assert(p.last() == last);
            assert(!last.contains(c)) by {
                assert(!before[before.len() - 1].contains(c));
                if last.contains(c) {
                    let k = choose|k: int| 0 <= k < last.len() && last[k] == c;
                    if k < before.last().len() {
                        assert(before.last()[k] == c);
                    }
                }
            }
            if before.len() == 1 {
                assert(before[0] == d);
                assert(last =~= s);
            } else {
                let front = crate::text::joined(before.drop_last(), seq![c]);
                assert(d == front + seq![c] + before.last());
                assert(front + seq![c] + last =~= d.push(s.last()));
                assert(d.push(s.last()) =~= s);
            }
        }
        assert forall|i: int| 0 <= i < p.len() implies !(#[trigger] p[i]).contains(c) by {
            if i < p.len() - 1 {
                assert(p[i] == before[i]);
            } else if s.last() == c {
                assert(p[i] =~= seq![]);
            }
        }
    }
}

/// The rows that are asked for by a field are those with it, in their order, each as often
/// as it was there.
pub proof fn law_asked_rows_have_the_field<A>(
    rows: Seq<A>,
    fields: Seq<Seq<char>>,
    want: Seq<char>,
    n: int,
)
    requires
        0 <= n <= rows.len(),
        fields.len() == rows.len(),
    ensures
        forall|x: A| #[trigger]
            crate::vtab::kept(rows, fields, want, n).contains(x) <==> exists|i: int|
                0 <= i < n && #[trigger] fields[i] == want && rows[i] == x,
        (forall|i: int| 0 <= i < n ==> #[trigger] fields[i] == want) ==> crate::vtab::kept(
            rows,
            fields,
            want,
            n,
        ) == rows.take(n),
    decreases n,
{
    let k = crate::vtab::kept(rows, fields, want, n);
    if n > 0 {
        law_asked_rows_have_the_field(rows, fields, want, n - 1);
        let before = crate::vtab::kept(rows, fields, want, n - 1);
        assert forall|x: A| #[trigger] k.contains(x) <==> exists|i: int|
            0 <= i < n && #[trigger] fields[i] == want && rows[i] == x by {
            if fields[n - 1] == want {
                assert(k[before.len() as int] == rows[n - 1]);
                if before.contains(x) {
                    let j = choose|j: int| 0 <= j < before.len() && before[j] == x;
                    assert(k[j] == x);
                }
                if k.contains(x) {
                    let j = choose|j: int| 0 <= j < k.len() && k[j] == x;
                    if j < before.len() {
                        assert(before[j] == x);
                        assert(before.contains(x));
                    }
                }
            }
            if exists|i: int| 0 <= i < n && #[trigger] fields[i] == want && rows[i] == x {
                let i = choose|i: int| 0 <= i < n && #[trigger] fields[i] == want && rows[i] == x;
                if i < n - 1 {
                    assert(before.contains(x));
                }
            }
        }
        if forall|i: int| 0 <= i < n ==> #[trigger] fields[i] == want {
            assert(fields[n - 1] == want);
            assert(rows.take(n) =~= rows.take(n - 1).push(rows[n - 1]));
        }
    } else {
        assert(k =~= seq![]);
        assert(rows.take(0) =~= seq![]);
    }
}

/// Of two references on different columns the one on the lower column is the older side,
/// in whichever order they come; on one column they are none.
pub proof fn law_lower_column_is_the_older_side(a: u32, x: Seq<char>, b: u32, y: Seq<char>)
    ensures
        a < b ==> crate::vtab::two_refs(seq![(a, x), (b, y)]) == Some((x, y)),
        a < b ==> crate::vtab::two_refs(seq![(b, y), (a, x)]) == Some((x, y)),
        crate::vtab::two_refs(seq![(a, x), (a, y)]) is None,
        crate::vtab::two_refs(seq![(a, x)]) is None,
        a <= b ==> crate::vtab::last_ref(seq![(a, x), (b, y)]) == Some((b, y)),
        a > b ==> crate::vtab::last_ref(seq![(a, x), (b, y)]) == Some((a, x)),
{
    reveal_with_fuel(crate::vtab::last_ref, 3);
    assert(seq![(a, x), (b, y)].drop_last() =~= seq![(a, x)]);
    assert(seq![(a, x)].drop_last() =~= seq![]);
}

/// The lines of conflicts are those of the wanted table, or of all, each with its key and
/// its three rows.
pub proof fn law_conflict_lines_tell_conflicts(entries: Seq<EntryModel>, want: Option<Seq<char>>)
    ensures
        want is None ==> crate::vtab::conflict_lines(entries, want).len() == entries.len(),
        forall|l: crate::vtab::ConflictLineModel| #[trigger]
            crate::vtab::conflict_lines(entries, want).contains(l) <==> exists|i: int|
                0 <= i < entries.len() && crate::vtab::conflict_line(#[trigger] entries[i]) == l
                    && (want matches Some(t) ==> entries[i].table == t),
    decreases entries.len(),
{
    let lines = crate::vtab::conflict_lines(entries, want);
    if entries.len() > 0 {
        let d = entries.drop_last();
        let e = entries.last();
        law_conflict_lines_tell_conflicts(d, want);
        let before = crate::vtab::conflict_lines(d, want);
        assert forall|l: crate::vtab::ConflictLineModel| #[trigger]
            lines.contains(l) <==> exists|i: int|
                0 <= i < entries.len() && crate::vtab::conflict_line(#[trigger] entries[i]) == l
                    && (want matches Some(t) ==> entries[i].table == t) by {
            if before.contains(l) {
                let j = choose|j: int| 0 <= j < before.len() && before[j] == l;
                assert(lines[j] == l);
                let i = choose|i: int|
                    0 <= i < d.len() && crate::vtab::conflict_line(#[trigger] d[i]) == l && (want
                        matches Some(t) ==> d[i].table == t);
                assert(entries[i] == d[i]);
            }
            if lines.contains(l) && !before.contains(l) {
                let j = choose|j: int| 0 <= j < lines.len() && lines[j] == l;
                if j < before.len() {
                    assert(before[j] == l);
                }
                assert(entries[entries.len() - 1] == e);
            }
            if exists|i: int|
                0 <= i < entries.len() && crate::vtab::conflict_line(#[trigger] entries[i]) == l
                    && (want matches Some(t) ==> entries[i].table == t) {
                let i = choose|i: int|
                    0 <= i < entries.len() && crate::vtab::conflict_line(#[trigger] entries[i]) == l
                        && (want matches Some(t) ==> entries[i].table == t);
                if i < d.len() {
                    assert(d[i] == entries[i]);
                    assert(before.contains(l));
                } else {
                    assert(lines[before.len() as int] == l);
                }
            }
        }
    } else {
        assert(lines =~= seq![]);
    }
}

/// A changed row shows the new row, its commit and date, the old row, its commit and date,
/// the kind of change, and the two references, in this order; a row that is missing shows
/// as nulls.
pub proof fn law_changed_row_shows_both_sides(
    d: TableDiffModel,
    from: Seq<char>,
    to: Seq<char>,
    i: int,
)
    requires
        d.from.len() == d.to.len() || d.from.len() == 0 || d.to.len() == 0,
        0 <= i < d.from.len() || 0 <= i < d.to.len(),
    ensures
        ({
            let n = if d.to.len() > 0 {
                d.to.len() as int
            } else {
                d.from.len() as int
            };
            let cells = crate::vtab::diff_cells_of(d, from, to);
            &&& cells.len() == 2 * n + 7
            &&& cells[i] == if d.to.len() > 0 {
                d.to[i]
            } else {
                VcValue::Null
            }
            &&& cells[n] == CellModel::Text(d.to_commit)
            &&& cells[n + 1] == CellModel::Text(d.to_date)
            &&& cells[n + 2 + i] == if d.from.len() > 0 {
                d.from[i]
            } else {
                VcValue::Null
            }
            &&& cells[2 * n + 2] == CellModel::Text(d.from_commit)
            &&& cells[2 * n + 3] == CellModel::Text(d.from_date)
            &&& cells[2 * n + 4] == CellModel::Text(
                match d.diff_type {
                    DiffType::Added => "added"@,
                    DiffType::Modified => "modified"@,
                    DiffType::Deleted => "deleted"@,
                },
            )
            &&& cells[2 * n + 5] == CellModel::Text(from)
            &&& cells[2 * n + 6] == CellModel::Text(to)
        }),
{
}

/// A row padded to a width begins with its cells and goes on with nulls.
pub proof fn law_padding_is_null(row: RowModel, width: nat, i: int)
    requires
        0 <= i < width,
    ensures
        crate::vtab::padded(row, width).len() >= width,
        crate::vtab::padded(row, width)[i] == if i < row.len() {
            row[i]
        } else {
            VcValue::Null
        },
{
}

/// A scan of records shows a row for each of them, in order: its own cells and behind them
/// those that repeat the query. One that failed shows the message.
pub proof fn law_scan_shows_each_record<T: crate::vtab_rows::Cells>(
    records: Seq<T::V>,
    echo: RowModel,
    i: int,
)
    requires
        0 <= i < records.len(),
    ensures
        crate::vtab_rows::scan_of::<T>(Ok(records), echo) matches Ok(rows) && {
            &&& rows.len() == records.len()
            &&& rows[i] == T::row(records[i]) + echo
        },
{
}

/// A query of the changes by commit or by table shows those of that commit or of that table,
/// and one of the schemas those of that kind or of that name.
pub proof fn law_queries_show_what_was_asked(
    changes: Seq<crate::vtab_rows::CommitDiffRow<Seq<char>>>,
    schemas: Seq<crate::vtab_rows::SchemaRow<Seq<char>>>,
    want: Seq<char>,
    c: crate::vtab_rows::CommitDiffRow<Seq<char>>,
    d: crate::vtab_rows::SchemaRow<Seq<char>>,
)
    ensures
        crate::vtab_rows::changes_wanted(changes, 1, seq![Some(want)]).contains(c)
            <==> changes.contains(c) && c.hash == want,
        crate::vtab_rows::changes_wanted(changes, 2, seq![Some(want)]).contains(c)
            <==> changes.contains(c) && c.table_name == want,
        crate::vtab_rows::changes_wanted(changes, 0, seq![]) == changes,
        crate::vtab_rows::schemas_wanted(schemas, 1, seq![Some(want)]).contains(d)
            <==> schemas.contains(d) && d.kind == want,
        crate::vtab_rows::schemas_wanted(schemas, 2, seq![Some(want)]).contains(d)
            <==> schemas.contains(d) && d.name == want,
        crate::vtab_rows::schemas_wanted(schemas, 0, seq![]) == schemas,
{
    let a = |m: crate::vtab_rows::CommitDiffRow<Seq<char>>| m.hash;
    let b = |m: crate::vtab_rows::CommitDiffRow<Seq<char>>| m.table_name;
    let e = |m: crate::vtab_rows::SchemaRow<Seq<char>>| m.kind;
    let f = |m: crate::vtab_rows::SchemaRow<Seq<char>>| m.name;
    lemma_with_field(changes, a, want, c);
    lemma_with_field(changes, b, want, c);
    lemma_with_field(schemas, e, want, d);
    lemma_with_field(schemas, f, want, d);
}

proof fn lemma_with_field<A>(
    records: Seq<A>,
    field: spec_fn(A) -> Seq<char>,
    want: Seq<char>,
    x: A,
)
    ensures
        crate::vtab_rows::with_field(records, field, seq![Some(want)]).contains(x)
            <==> records.contains(x) && field(x) == want,
{
    let fields = records.map_values(field);
    let n = records.len() as int;
    law_asked_rows_have_the_field(records, fields, want, n);
    assert(crate::vtab::arg_at(seq![Some(want)], 0) == Some(want));
    let kept = crate::vtab_rows::with_field(records, field, seq![Some(want)]);
    assert(kept == crate::vtab::kept(records, fields, want, n));
    if records.contains(x) && field(x) == want {
        let i = choose|i: int| 0 <= i < records.len() && records[i] == x;
        assert(fields[i] == want && records[i] == x);
    }
}

/// The cells of each kind of record stand in the order of its columns.
pub proof fn law_records_show_their_fields(
    log: crate::vtab_rows::LogRow<Seq<char>>,
    change: crate::vtab_rows::CommitDiffRow<Seq<char>>,
    stat: crate::vtab_rows::StatRow<Seq<char>>,
    summary: crate::vtab_rows::SummaryRow<Seq<char>>,
    patch: crate::vtab_rows::PatchRow<Seq<char>>,
    branch: crate::vtab_rows::BranchRow<Seq<char>>,
)
    ensures
        ({
            let r = <crate::vtab_rows::LogRow as crate::vtab_rows::Cells>::row(log);
            &&& r.len() == 6
            &&& r[0] == CellModel::Text(log.hash) && r[1] == CellModel::Text(log.committer)
            &&& r[2] == CellModel::Text(log.email) && r[3] == CellModel::Text(log.date)
            &&& r[4] == CellModel::Text(log.message) && r[5] == CellModel::Text(log.revision)
        }),
        ({
            let r = <crate::vtab_rows::CommitDiffRow as crate::vtab_rows::Cells>::row(change);
            &&& r.len() == 8
            &&& r[0] == CellModel::Text(change.hash) && r[1] == CellModel::Text(change.committer)
            &&& r[2] == CellModel::Text(change.email) && r[3] == CellModel::Text(change.date)
            &&& r[4] == CellModel::Text(change.message)
            &&& r[5] == CellModel::Integer(
                if change.data_change {
                    1
                } else {
                    0
                },
            )
            &&& r[6] == CellModel::Integer(
                if change.schema_change {
                    1
                } else {
                    0
                },
            )
            &&& r[7] == CellModel::Text(change.table_name)
        }),
        ({
            let r = <crate::vtab_rows::StatRow as crate::vtab_rows::Cells>::row(stat);
            &&& r.len() == 12
            &&& r[0] == CellModel::Text(stat.table)
            &&& r[1] == CellModel::Integer(stat.rows_unmodified)
            &&& r[2] == CellModel::Integer(stat.rows_added)
            &&& r[3] == CellModel::Integer(stat.rows_deleted)
            &&& r[4] == CellModel::Integer(stat.rows_modified)
            &&& r[5] == CellModel::Integer(stat.cells_added)
            &&& r[6] == CellModel::Integer(stat.cells_deleted)
            &&& r[7] == CellModel::Integer(stat.cells_modified)
            &&& r[8] == CellModel::Integer(stat.old_rows)
            &&& r[9] == CellModel::Integer(stat.new_rows)
            &&& r[10] == CellModel::Integer(stat.old_cells)
            &&& r[11] == CellModel::Integer(stat.new_cells)
        }),
        ({
            let r = <crate::vtab_rows::SummaryRow as crate::vtab_rows::Cells>::row(summary);
            &&& r.len() == 5
            &&& r[0] == CellModel::Text(summary.from_table) && r[1] == CellModel::Text(
                summary.to_table,
            ) && r[2] == CellModel::Text(summary.diff_type)
        }),
        ({
            let r = <crate::vtab_rows::PatchRow as crate::vtab_rows::Cells>::row(patch);
            &&& r.len() == 6
            &&& r[0] == CellModel::Integer(patch.order) && r[1] == CellModel::Text(
                patch.from_commit,
            ) && r[2] == CellModel::Text(patch.to_commit)
            &&& r[3] == CellModel::Text(patch.table) && r[4] == CellModel::Text(patch.diff_type)
                && r[5] == CellModel::Text(patch.statement)
        }),
        ({
            let r = <crate::vtab_rows::BranchRow as crate::vtab_rows::Cells>::row(branch);
            &&& r.len() == 6
            &&& r[0] == CellModel::Text(branch.name) && r[1] == CellModel::Text(branch.hash)
            &&& r[2] == CellModel::Text(branch.latest_commit_message) && r[3] == CellModel::Text(
                branch.remote,
            )
        }),
{
}

} // verus!
