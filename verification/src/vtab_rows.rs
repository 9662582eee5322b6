//! The rows of the virtual tables: what each table shows of a record that was read
//! from the repository, and what a scan answers when the reading fails.

use vstd::prelude::*;

use crate::model::VersionResult;
use crate::table_merge::Fault;
use crate::text::{str_eq, Dup};
use crate::values::{CellModel, RowModel, VcRow, VcValue};
use crate::vtab::{
    append_cells, arg_at, arg_text, bound_columns, diff_cells, diff_cells_of, diff_refs, kept,
    last_ref, retain, table_ref, two_refs, ArgTexts, ScanArgs, TableDiffModel, TableDiffRow,
};

verus! {

broadcast use crate::text::lemma_bytes_deep_view;

// ---------------------------------------------------------------------------
// Records
// ---------------------------------------------------------------------------

/// A record that a virtual table shows as one row.
pub trait Cells: DeepView + Sized {
    /// The cells of the row, in the order in which the table declares its columns.
    spec fn row(m: Self::V) -> RowModel;

    fn cells(&self) -> (r: Vec<VcValue>)
        ensures
            r.deep_view() == Self::row(self.deep_view()),
    ;
}

/// A truth value as a cell.
pub open spec fn flag_cell(b: bool) -> CellModel {
    VcValue::Integer(
        if b {
            1
        } else {
            0
        },
    )
}

fn flag(b: bool) -> (r: VcValue)
    ensures
        r.deep_view() == flag_cell(b),
{
    if b {
        VcValue::Integer(1)
    } else {
        VcValue::Integer(0)
    }
}

/// A commit of the history.
#[derive(Debug, Clone, PartialEq, Eq)]
pub struct LogRow<S = String> {
    pub hash: S,
    pub committer: S,
    pub email: S,
    pub date: S,
    pub message: S,
    pub revision: S,
}

impl DeepView for LogRow {
    type V = LogRow<Seq<char>>;

    open spec fn deep_view(&self) -> LogRow<Seq<char>> {
        LogRow {
            hash: self.hash@,
            committer: self.committer@,
            email: self.email@,
            date: self.date@,
            message: self.message@,
            revision: self.revision@,
        }
    }
}

impl Cells for LogRow {
    open spec fn row(m: LogRow<Seq<char>>) -> RowModel {
        seq![
            VcValue::Text(m.hash),
            VcValue::Text(m.committer),
            VcValue::Text(m.email),
            VcValue::Text(m.date),
            VcValue::Text(m.message),
            VcValue::Text(m.revision),
        ]
    }

    fn cells(&self) -> (r: Vec<VcValue>) {
        let r = vec![
            VcValue::Text(self.hash.clone()),
            VcValue::Text(self.committer.clone()),
            VcValue::Text(self.email.clone()),
            VcValue::Text(self.date.clone()),
            VcValue::Text(self.message.clone()),
            VcValue::Text(self.revision.clone()),
        ];
        assert(r.deep_view() =~= Self::row(self.deep_view()));
        r
    }
}

/// A view or a trigger of the database.
#[derive(Debug, Clone, PartialEq, Eq)]
pub struct SchemaRow<S = String> {
    pub kind: S,
    pub name: S,
    pub fragment: S,
}

impl DeepView for SchemaRow {
    type V = SchemaRow<Seq<char>>;

    open spec fn deep_view(&self) -> SchemaRow<Seq<char>> {
        SchemaRow {
            kind: self.kind@,
            name: self.name@,
            fragment: self.fragment@,
        }
    }
}

impl Cells for SchemaRow {
    open spec fn row(m: SchemaRow<Seq<char>>) -> RowModel {
        seq![
            VcValue::Text(m.kind),
            VcValue::Text(m.name),
            VcValue::Text(m.fragment),
            VcValue::Null,
            VcValue::Null,
        ]
    }

    fn cells(&self) -> (r: Vec<VcValue>) {
        let r = vec![
            VcValue::Text(self.kind.clone()),
            VcValue::Text(self.name.clone()),
            VcValue::Text(self.fragment.clone()),
            VcValue::Null,
            VcValue::Null,
        ];
        assert(r.deep_view() =~= Self::row(self.deep_view()));
        r
    }
}

impl Dup for SchemaRow {
    fn dup(&self) -> (r: Self) {
        SchemaRow {
            kind: self.kind.clone(),
            name: self.name.clone(),
            fragment: self.fragment.clone(),
        }
    }
}

/// A table that a commit changed.
#[derive(Debug, Clone, PartialEq, Eq)]
pub struct CommitDiffRow<S = String> {
    pub hash: S,
    pub committer: S,
    pub email: S,
    pub date: S,
    pub message: S,
    pub data_change: bool,
    pub schema_change: bool,
    pub table_name: S,
}

impl DeepView for CommitDiffRow {
    type V = CommitDiffRow<Seq<char>>;

    open spec fn deep_view(&self) -> CommitDiffRow<Seq<char>> {
        CommitDiffRow {
            hash: self.hash@,
            committer: self.committer@,
            email: self.email@,
            date: self.date@,
            message: self.message@,
            data_change: self.data_change,
            schema_change: self.schema_change,
            table_name: self.table_name@,
        }
    }
}

impl Cells for CommitDiffRow {
    open spec fn row(m: CommitDiffRow<Seq<char>>) -> RowModel {
        seq![
            VcValue::Text(m.hash),
            VcValue::Text(m.committer),
            VcValue::Text(m.email),
            VcValue::Text(m.date),
            VcValue::Text(m.message),
            flag_cell(m.data_change),
            flag_cell(m.schema_change),
            VcValue::Text(m.table_name),
        ]
    }

    fn cells(&self) -> (r: Vec<VcValue>) {
        let r = vec![
            VcValue::Text(self.hash.clone()),
            VcValue::Text(self.committer.clone()),
            VcValue::Text(self.email.clone()),
            VcValue::Text(self.date.clone()),
            VcValue::Text(self.message.clone()),
            flag(self.data_change),
            flag(self.schema_change),
            VcValue::Text(self.table_name.clone()),
        ];
        assert(r.deep_view() =~= Self::row(self.deep_view()));
        r
    }
}

impl Dup for CommitDiffRow {
    fn dup(&self) -> (r: Self) {
        CommitDiffRow {
            hash: self.hash.clone(),
            committer: self.committer.clone(),
            email: self.email.clone(),
            date: self.date.clone(),
            message: self.message.clone(),
            data_change: self.data_change,
            schema_change: self.schema_change,
            table_name: self.table_name.clone(),
        }
    }
}

/// How many rows and cells of a table differ between two revisions.
#[derive(Debug, Clone, PartialEq, Eq)]
pub struct StatRow<S = String> {
    pub table: S,
    pub rows_unmodified: i64,
    pub rows_added: i64,
    pub rows_deleted: i64,
    pub rows_modified: i64,
    pub cells_added: i64,
    pub cells_deleted: i64,
    pub cells_modified: i64,
    pub old_rows: i64,
    pub new_rows: i64,
    pub old_cells: i64,
    pub new_cells: i64,
}

impl DeepView for StatRow {
    type V = StatRow<Seq<char>>;

    open spec fn deep_view(&self) -> StatRow<Seq<char>> {
        StatRow {
            table: self.table@,
            rows_unmodified: self.rows_unmodified,
            rows_added: self.rows_added,
            rows_deleted: self.rows_deleted,
            rows_modified: self.rows_modified,
            cells_added: self.cells_added,
            cells_deleted: self.cells_deleted,
            cells_modified: self.cells_modified,
            old_rows: self.old_rows,
            new_rows: self.new_rows,
            old_cells: self.old_cells,
            new_cells: self.new_cells,
        }
    }
}

impl Cells for StatRow {
    open spec fn row(m: StatRow<Seq<char>>) -> RowModel {
        seq![
            VcValue::Text(m.table),
            VcValue::Integer(m.rows_unmodified),
            VcValue::Integer(m.rows_added),
            VcValue::Integer(m.rows_deleted),
            VcValue::Integer(m.rows_modified),
            VcValue::Integer(m.cells_added),
            VcValue::Integer(m.cells_deleted),
            VcValue::Integer(m.cells_modified),
            VcValue::Integer(m.old_rows),
            VcValue::Integer(m.new_rows),
            VcValue::Integer(m.old_cells),
            VcValue::Integer(m.new_cells),
        ]
    }

    fn cells(&self) -> (r: Vec<VcValue>) {
        let r = vec![
            VcValue::Text(self.table.clone()),
            VcValue::Integer(self.rows_unmodified),
            VcValue::Integer(self.rows_added),
            VcValue::Integer(self.rows_deleted),
            VcValue::Integer(self.rows_modified),
            VcValue::Integer(self.cells_added),
            VcValue::Integer(self.cells_deleted),
            VcValue::Integer(self.cells_modified),
            VcValue::Integer(self.old_rows),
            VcValue::Integer(self.new_rows),
            VcValue::Integer(self.old_cells),
            VcValue::Integer(self.new_cells),
        ];
        assert(r.deep_view() =~= Self::row(self.deep_view()));
        r
    }
}

/// What kind of change a table has between two revisions.
#[derive(Debug, Clone, PartialEq, Eq)]
pub struct SummaryRow<S = String> {
    pub from_table: S,
    pub to_table: S,
    pub diff_type: S,
    pub data_change: bool,
    pub schema_change: bool,
}

impl DeepView for SummaryRow {
    type V = SummaryRow<Seq<char>>;

    open spec fn deep_view(&self) -> SummaryRow<Seq<char>> {
        SummaryRow {
            from_table: self.from_table@,
            to_table: self.to_table@,
            diff_type: self.diff_type@,
            data_change: self.data_change,
            schema_change: self.schema_change,
        }
    }
}

impl Cells for SummaryRow {
    open spec fn row(m: SummaryRow<Seq<char>>) -> RowModel {
        seq![
            VcValue::Text(m.from_table),
            VcValue::Text(m.to_table),
            VcValue::Text(m.diff_type),
            flag_cell(m.data_change),
            flag_cell(m.schema_change),
        ]
    }

    fn cells(&self) -> (r: Vec<VcValue>) {
        let r = vec![
            VcValue::Text(self.from_table.clone()),
            VcValue::Text(self.to_table.clone()),
            VcValue::Text(self.diff_type.clone()),
            flag(self.data_change),
            flag(self.schema_change),
        ];
        assert(r.deep_view() =~= Self::row(self.deep_view()));
        r
    }
}

/// A table whose schema differs between two revisions.
#[derive(Debug, Clone, PartialEq, Eq)]
pub struct SchemaDiffRow<S = String> {
    pub from_table: S,
    pub to_table: S,
    pub from_create: S,
    pub to_create: S,
}

impl DeepView for SchemaDiffRow {
    type V = SchemaDiffRow<Seq<char>>;

    open spec fn deep_view(&self) -> SchemaDiffRow<Seq<char>> {
        SchemaDiffRow {
            from_table: self.from_table@,
            to_table: self.to_table@,
            from_create: self.from_create@,
            to_create: self.to_create@,
        }
    }
}

impl Cells for SchemaDiffRow {
    open spec fn row(m: SchemaDiffRow<Seq<char>>) -> RowModel {
        seq![
            VcValue::Text(m.from_table),
            VcValue::Text(m.to_table),
            VcValue::Text(m.from_create),
            VcValue::Text(m.to_create),
        ]
    }

    fn cells(&self) -> (r: Vec<VcValue>) {
        let r = vec![
            VcValue::Text(self.from_table.clone()),
            VcValue::Text(self.to_table.clone()),
            VcValue::Text(self.from_create.clone()),
            VcValue::Text(self.to_create.clone()),
        ];
        assert(r.deep_view() =~= Self::row(self.deep_view()));
        r
    }
}

/// A statement of a patch.
#[derive(Debug, Clone, PartialEq, Eq)]
pub struct PatchRow<S = String> {
    pub order: i64,
    pub from_commit: S,
    pub to_commit: S,
    pub table: S,
    pub diff_type: S,
    pub statement: S,
}

impl DeepView for PatchRow {
    type V = PatchRow<Seq<char>>;

    open spec fn deep_view(&self) -> PatchRow<Seq<char>> {
        PatchRow {
            order: self.order,
            from_commit: self.from_commit@,
            to_commit: self.to_commit@,
            table: self.table@,
            diff_type: self.diff_type@,
            statement: self.statement@,
        }
    }
}

impl Cells for PatchRow {
    open spec fn row(m: PatchRow<Seq<char>>) -> RowModel {
        seq![
            VcValue::Integer(m.order),
            VcValue::Text(m.from_commit),
            VcValue::Text(m.to_commit),
            VcValue::Text(m.table),
            VcValue::Text(m.diff_type),
            VcValue::Text(m.statement),
        ]
    }

    fn cells(&self) -> (r: Vec<VcValue>) {
        let r = vec![
            VcValue::Integer(self.order),
            VcValue::Text(self.from_commit.clone()),
            VcValue::Text(self.to_commit.clone()),
            VcValue::Text(self.table.clone()),
            VcValue::Text(self.diff_type.clone()),
            VcValue::Text(self.statement.clone()),
        ];
        assert(r.deep_view() =~= Self::row(self.deep_view()));
        r
    }
}

/// A branch.
#[derive(Debug, Clone, PartialEq, Eq)]
pub struct BranchRow<S = String> {
    pub name: S,
    pub hash: S,
    pub latest_commit_message: S,
    pub remote: S,
    pub branch: bool,
    pub dirty: bool,
}

impl DeepView for BranchRow {
    type V = BranchRow<Seq<char>>;

    open spec fn deep_view(&self) -> BranchRow<Seq<char>> {
        BranchRow {
            name: self.name@,
            hash: self.hash@,
            latest_commit_message: self.latest_commit_message@,
            remote: self.remote@,
            branch: self.branch,
            dirty: self.dirty,
        }
    }
}

impl Cells for BranchRow {
    open spec fn row(m: BranchRow<Seq<char>>) -> RowModel {
        seq![
            VcValue::Text(m.name),
            VcValue::Text(m.hash),
            VcValue::Text(m.latest_commit_message),
            VcValue::Text(m.remote),
            flag_cell(m.branch),
            flag_cell(m.dirty),
        ]
    }

    fn cells(&self) -> (r: Vec<VcValue>) {
        let r = vec![
            VcValue::Text(self.name.clone()),
            VcValue::Text(self.hash.clone()),
            VcValue::Text(self.latest_commit_message.clone()),
            VcValue::Text(self.remote.clone()),
            flag(self.branch),
            flag(self.dirty),
        ];
        assert(r.deep_view() =~= Self::row(self.deep_view()));
        r
    }
}

/// A tag.
#[derive(Debug, Clone, PartialEq, Eq)]
pub struct TagRow<S = String> {
    pub tag_name: S,
    pub tag_hash: S,
    pub message: S,
}

impl DeepView for TagRow {
    type V = TagRow<Seq<char>>;

    open spec fn deep_view(&self) -> TagRow<Seq<char>> {
        TagRow {
            tag_name: self.tag_name@,
            tag_hash: self.tag_hash@,
            message: self.message@,
        }
    }
}

impl Cells for TagRow {
    open spec fn row(m: TagRow<Seq<char>>) -> RowModel {
        seq![
            VcValue::Text(m.tag_name),
            VcValue::Text(m.tag_hash),
            VcValue::Text(m.message),
        ]
    }

    fn cells(&self) -> (r: Vec<VcValue>) {
        let r = vec![
            VcValue::Text(self.tag_name.clone()),
            VcValue::Text(self.tag_hash.clone()),
            VcValue::Text(self.message.clone()),
        ];
        assert(r.deep_view() =~= Self::row(self.deep_view()));
        r
    }
}

/// A remote.
#[derive(Debug, Clone, PartialEq, Eq)]
pub struct RemoteRow<S = String> {
    pub name: S,
    pub url: S,
    pub fetch_specs: S,
    pub params: S,
}

impl DeepView for RemoteRow {
    type V = RemoteRow<Seq<char>>;

    open spec fn deep_view(&self) -> RemoteRow<Seq<char>> {
        RemoteRow {
            name: self.name@,
            url: self.url@,
            fetch_specs: self.fetch_specs@,
            params: self.params@,
        }
    }
}

impl Cells for RemoteRow {
    open spec fn row(m: RemoteRow<Seq<char>>) -> RowModel {
        seq![
            VcValue::Text(m.name),
            VcValue::Text(m.url),
            VcValue::Text(m.fetch_specs),
            VcValue::Text(m.params),
        ]
    }

    fn cells(&self) -> (r: Vec<VcValue>) {
        let r = vec![
            VcValue::Text(self.name.clone()),
            VcValue::Text(self.url.clone()),
            VcValue::Text(self.fetch_specs.clone()),
            VcValue::Text(self.params.clone()),
        ];
        assert(r.deep_view() =~= Self::row(self.deep_view()));
        r
    }
}

/// A branch of a remote.
#[derive(Debug, Clone, PartialEq, Eq)]
pub struct RemoteBranchRow<S = String> {
    pub name: S,
    pub hash: S,
    pub latest_commit_message: S,
}

impl DeepView for RemoteBranchRow {
    type V = RemoteBranchRow<Seq<char>>;

    open spec fn deep_view(&self) -> RemoteBranchRow<Seq<char>> {
        RemoteBranchRow {
            name: self.name@,
            hash: self.hash@,
            latest_commit_message: self.latest_commit_message@,
        }
    }
}

impl Cells for RemoteBranchRow {
    open spec fn row(m: RemoteBranchRow<Seq<char>>) -> RowModel {
        seq![
            VcValue::Text(m.name),
            VcValue::Text(m.hash),
            VcValue::Text(m.latest_commit_message),
        ]
    }

    fn cells(&self) -> (r: Vec<VcValue>) {
        let r = vec![
            VcValue::Text(self.name.clone()),
            VcValue::Text(self.hash.clone()),
            VcValue::Text(self.latest_commit_message.clone()),
        ];
        assert(r.deep_view() =~= Self::row(self.deep_view()));
        r
    }
}

/// A row as a commit of the history had it.
#[derive(Debug, Clone, PartialEq, Eq)]
pub struct HistoryRow<S = String, R = Vec<VcValue>> {
    pub values: R,
    pub hash: S,
    pub committer: S,
    pub date: S,
    pub start: S,
}

impl DeepView for HistoryRow {
    type V = HistoryRow<Seq<char>, RowModel>;

    open spec fn deep_view(&self) -> HistoryRow<Seq<char>, RowModel> {
        HistoryRow {
            values: self.values.deep_view(),
            hash: self.hash@,
            committer: self.committer@,
            date: self.date@,
            start: self.start@,
        }
    }
}

impl Cells for HistoryRow {
    open spec fn row(m: HistoryRow<Seq<char>, RowModel>) -> RowModel {
        m.values + seq![
            VcValue::Text(m.hash),
            VcValue::Text(m.committer),
            VcValue::Text(m.date),
            VcValue::Text(m.start),
        ]
    }

    fn cells(&self) -> (r: Vec<VcValue>) {
        let mut r = self.values.dup();
        let tail = vec![
            VcValue::Text(self.hash.clone()),
            VcValue::Text(self.committer.clone()),
            VcValue::Text(self.date.clone()),
            VcValue::Text(self.start.clone()),
        ];
        append_cells(&mut r, &tail);
        assert(tail.deep_view() =~= seq![
            VcValue::Text(self.hash@),
            VcValue::Text(self.committer@),
            VcValue::Text(self.date@),
            VcValue::Text(self.start@),
        ]);
        r
    }
}

/// The key of a row, and the commit that last changed the row.
#[derive(Debug, Clone, PartialEq, Eq)]
pub struct BlameRow<S = String, R = Vec<VcValue>> {
    pub pk_values: R,
    pub hash: S,
    pub date: S,
    pub committer: S,
    pub email: S,
    pub message: S,
}

impl DeepView for BlameRow {
    type V = BlameRow<Seq<char>, RowModel>;

    open spec fn deep_view(&self) -> BlameRow<Seq<char>, RowModel> {
        BlameRow {
            pk_values: self.pk_values.deep_view(),
            hash: self.hash@,
            date: self.date@,
            committer: self.committer@,
            email: self.email@,
            message: self.message@,
        }
    }
}

impl Cells for BlameRow {
    open spec fn row(m: BlameRow<Seq<char>, RowModel>) -> RowModel {
        m.pk_values + seq![
            VcValue::Text(m.hash),
            VcValue::Text(m.date),
            VcValue::Text(m.committer),
            VcValue::Text(m.email),
            VcValue::Text(m.message),
        ]
    }

    fn cells(&self) -> (r: Vec<VcValue>) {
        let mut r = self.pk_values.dup();
        let tail = vec![
            VcValue::Text(self.hash.clone()),
            VcValue::Text(self.date.clone()),
            VcValue::Text(self.committer.clone()),
            VcValue::Text(self.email.clone()),
            VcValue::Text(self.message.clone()),
        ];
        append_cells(&mut r, &tail);
        assert(tail.deep_view() =~= seq![
            VcValue::Text(self.hash@),
            VcValue::Text(self.date@),
            VcValue::Text(self.committer@),
            VcValue::Text(self.email@),
            VcValue::Text(self.message@),
        ]);
        r
    }
}

impl Cells for VcRow {
    open spec fn row(m: RowModel) -> RowModel {
        m
    }

    fn cells(&self) -> (r: Vec<VcValue>) {
        self.values.dup()
    }
}

// ---------------------------------------------------------------------------
// Scans
// ---------------------------------------------------------------------------

/// What a scan gives: its rows, or the message of what went wrong.
pub type Scan = Result<Vec<Vec<VcValue>>, String>;

/// What a scan stands for.
pub type ScanModel = Result<Seq<RowModel>, Seq<char>>;

/// The rows of the records, each with the same cells behind it.
pub open spec fn rows_of<T: Cells>(records: Seq<T::V>, echo: RowModel) -> Seq<RowModel> {
    records.map_values(|m: T::V| T::row(m) + echo)
}

/// The rows of what was read, or the message of what went wrong.
pub open spec fn scan_of<T: Cells>(read: Result<Seq<T::V>, Fault>, echo: RowModel) -> ScanModel {
    match read {
        Ok(records) => Ok(rows_of::<T>(records, echo)),
        Err(e) => Err(crate::model::version_message(e)),
    }
}

fn list<T: Cells>(records: &Vec<T>, echo: &Vec<VcValue>) -> (r: Vec<Vec<VcValue>>)
    ensures
        r.deep_view() == rows_of::<T>(records.deep_view(), echo.deep_view()),
{
    let ghost all = records.deep_view();
    let mut out: Vec<Vec<VcValue>> = Vec::new();
    let mut i: usize = 0;
    while i < records.len()
        invariant
            i <= records@.len(),
            all == records.deep_view(),
            out@.len() == i,
            forall|j: int|
                0 <= j < i ==> (#[trigger] out@[j]).deep_view() == T::row(all[j]) + echo.deep_view(),
        decreases records.len() - i,
    {
        assert(all[i as int] == records@[i as int].deep_view());
        let mut row = records[i].cells();
        append_cells(&mut row, echo);
        out.push(row);
        i = i + 1;
    }
    assert(out.deep_view() =~= rows_of::<T>(all, echo.deep_view()));
    out
}

fn scan<T: Cells>(read: VersionResult<Vec<T>>, echo: Vec<VcValue>) -> (r: Scan)
    ensures
        crate::model::outcome(r) == scan_of::<T>(crate::model::outcome(read), echo.deep_view()),
{
    match read {
        Ok(records) => Ok(list(&records, &echo)),
        Err(e) => Err(e.to_string()),
    }
}

fn no_echo() -> (r: Vec<VcValue>)
    ensures
        r.deep_view() == RowModel::empty(),
{
    let r: Vec<VcValue> = Vec::new();
    assert(r.deep_view() =~= RowModel::empty());
    r
}

/// The history.
pub fn build_log(read: VersionResult<Vec<LogRow>>) -> (r: Scan)
    ensures
        crate::model::outcome(r) == scan_of::<LogRow>(
            crate::model::outcome(read),
            RowModel::empty(),
        ),
{
    scan(read, no_echo())
}

/// The branches.
pub fn build_branches(read: &Vec<BranchRow>) -> (r: Vec<Vec<VcValue>>)
    ensures
        r.deep_view() == rows_of::<BranchRow>(read.deep_view(), RowModel::empty()),
{
    list(read, &no_echo())
}

/// The tags.
pub fn build_tags(read: &Vec<TagRow>) -> (r: Vec<Vec<VcValue>>)
    ensures
        r.deep_view() == rows_of::<TagRow>(read.deep_view(), RowModel::empty()),
{
    list(read, &no_echo())
}

/// The remotes.
pub fn build_remotes(read: &Vec<RemoteRow>) -> (r: Vec<Vec<VcValue>>)
    ensures
        r.deep_view() == rows_of::<RemoteRow>(read.deep_view(), RowModel::empty()),
{
    list(read, &no_echo())
}

/// The prefix that a scan of the branches of remotes asks for.
pub open spec fn prefix_of(idx_num: i32, args: ArgTexts) -> Option<Seq<char>> {
    if idx_num == 1 {
        arg_at(args, 0)
    } else {
        None
    }
}

/// The prefix that a scan of the branches of remotes asks for.
pub fn wanted_prefix(idx_num: i32, args: &ScanArgs) -> (r: Option<String>)
    ensures
        r.deep_view() == prefix_of(idx_num, args.deep_view()),
{
    if idx_num == 1 {
        arg_text(args, 0)
    } else {
        None
    }
}

/// A text that may be missing, as a cell.
pub open spec fn echo_cell(t: Option<Seq<char>>) -> CellModel {
    VcValue::Text(
        match t {
            Some(x) => x,
            None => ""@,
        },
    )
}

fn echo(t: &Option<String>) -> (r: VcValue)
    ensures
        r.deep_view() == echo_cell(t.deep_view()),
{
    match t {
        Some(x) => VcValue::Text(x.clone()),
        None => VcValue::Text("".to_owned()),
    }
}

/// The branches of the remotes, each with the prefix that was asked for.
pub fn build_remote_branches(
    read: &Vec<RemoteBranchRow>,
    idx_num: i32,
    args: &ScanArgs,
) -> (r: Vec<Vec<VcValue>>)
    ensures
        r.deep_view() == rows_of::<RemoteBranchRow>(
            read.deep_view(),
            seq![echo_cell(prefix_of(idx_num, args.deep_view()))],
        ),
{
    let behind = vec![echo(&wanted_prefix(idx_num, args))];
    assert(behind.deep_view() =~= seq![echo_cell(prefix_of(idx_num, args.deep_view()))]);
    list(read, &behind)
}

// ---------------------------------------------------------------------------
// Scans that keep some records
// ---------------------------------------------------------------------------

/// The records whose field is the first value of a scan, or all without such a value.
pub open spec fn with_field<A>(records: Seq<A>, field: spec_fn(A) -> Seq<char>, args: ArgTexts) -> Seq<
    A,
> {
    match arg_at(args, 0) {
        Some(want) => kept(records, records.map_values(field), want, records.len() as int),
        None => records,
    }
}

/// The views and triggers that a scan asks for: by kind or by name.
pub open spec fn schemas_wanted(
    records: Seq<SchemaRow<Seq<char>>>,
    idx_num: i32,
    args: ArgTexts,
) -> Seq<SchemaRow<Seq<char>>> {
    if idx_num == 1 {
        with_field(records, |m: SchemaRow<Seq<char>>| m.kind, args)
    } else if idx_num == 2 {
        with_field(records, |m: SchemaRow<Seq<char>>| m.name, args)
    } else {
        records
    }
}

fn schema_fields(records: &Vec<SchemaRow>, by_kind: bool) -> (r: Vec<String>)
    ensures
        r@.len() == records@.len(),
        by_kind ==> r.deep_view() == records.deep_view().map_values(
            |m: SchemaRow<Seq<char>>| m.kind,
        ),
        !by_kind ==> r.deep_view() == records.deep_view().map_values(
            |m: SchemaRow<Seq<char>>| m.name,
        ),
{
    let ghost all = records.deep_view();
    let mut out: Vec<String> = Vec::new();
    let mut i: usize = 0;
    while i < records.len()
        invariant
            i <= records@.len(),
            all == records.deep_view(),
            out@.len() == i,
            forall|j: int|
                0 <= j < i ==> (#[trigger] out@[j])@ == (if by_kind {
                    all[j].kind
                } else {
                    all[j].name
                }),
        decreases records.len() - i,
    {
        assert(all[i as int] == records@[i as int].deep_view());
        if by_kind {
            out.push(records[i].kind.clone());
        } else {
            out.push(records[i].name.clone());
        }
        i = i + 1;
    }
    proof {
        if by_kind {
            assert(out.deep_view() =~= all.map_values(|m: SchemaRow<Seq<char>>| m.kind));
        } else {
            assert(out.deep_view() =~= all.map_values(|m: SchemaRow<Seq<char>>| m.name));
        }
    }
    out
}

/// The views and triggers that a scan asks for.
pub fn build_schemas(read: &Vec<SchemaRow>, idx_num: i32, args: &ScanArgs) -> (r: Vec<Vec<VcValue>>)
    ensures
        r.deep_view() == rows_of::<SchemaRow>(
            schemas_wanted(read.deep_view(), idx_num, args.deep_view()),
            RowModel::empty(),
        ),
{
    assert(read.deep_view().len() == read@.len());
    if idx_num == 1 || idx_num == 2 {
        let fields = schema_fields(read, idx_num == 1);
        list(&retain(read, &fields, args, 0), &no_echo())
    } else {
        list(read, &no_echo())
    }
}

/// The changed tables that a scan asks for: by commit or by table.
pub open spec fn changes_wanted(
    records: Seq<CommitDiffRow<Seq<char>>>,
    idx_num: i32,
    args: ArgTexts,
) -> Seq<CommitDiffRow<Seq<char>>> {
    if idx_num == 1 {
        with_field(records, |m: CommitDiffRow<Seq<char>>| m.hash, args)
    } else if idx_num == 2 {
        with_field(records, |m: CommitDiffRow<Seq<char>>| m.table_name, args)
    } else {
        records
    }
}

fn change_fields(records: &Vec<CommitDiffRow>, by_hash: bool) -> (r: Vec<String>)
    ensures
        r@.len() == records@.len(),
        by_hash ==> r.deep_view() == records.deep_view().map_values(
            |m: CommitDiffRow<Seq<char>>| m.hash,
        ),
        !by_hash ==> r.deep_view() == records.deep_view().map_values(
            |m: CommitDiffRow<Seq<char>>| m.table_name,
        ),
{
    let ghost all = records.deep_view();
    let mut out: Vec<String> = Vec::new();
    let mut i: usize = 0;
    while i < records.len()
        invariant
            i <= records@.len(),
            all == records.deep_view(),
            out@.len() == i,
            forall|j: int|
                0 <= j < i ==> (#[trigger] out@[j])@ == (if by_hash {
                    all[j].hash
                } else {
                    all[j].table_name
                }),
        decreases records.len() - i,
    {
        assert(all[i as int] == records@[i as int].deep_view());
        if by_hash {
            out.push(records[i].hash.clone());
        } else {
            out.push(records[i].table_name.clone());
        }
        i = i + 1;
    }
    proof {
        if by_hash {
            assert(out.deep_view() =~= all.map_values(|m: CommitDiffRow<Seq<char>>| m.hash));
        } else {
            assert(out.deep_view() =~= all.map_values(|m: CommitDiffRow<Seq<char>>| m.table_name));
        }
    }
    out
}

/// The tables that the commits changed, as a scan asks for them.
pub fn build_diff(read: VersionResult<Vec<CommitDiffRow>>, idx_num: i32, args: &ScanArgs) -> (r: Scan)
    ensures
        crate::model::outcome(r) == scan_of::<CommitDiffRow>(
            (match crate::model::outcome(read) {
                Ok(all) => Ok(changes_wanted(all, idx_num, args.deep_view())),
                Err(e) => Err(e),
            }),
            RowModel::empty(),
        ),
{
    match read {
        Ok(records) => {
            assert(records.deep_view().len() == records@.len());
            if idx_num == 1 || idx_num == 2 {
                let fields = change_fields(&records, idx_num == 1);
                Ok(list(&retain(&records, &fields, args, 0), &no_echo()))
            } else {
                Ok(list(&records, &no_echo()))
            }
        },
        Err(e) => Err(e.to_string()),
    }
}

// ---------------------------------------------------------------------------
// Scans that compare two revisions
// ---------------------------------------------------------------------------

/// What a comparison was asked for, as cells.
pub open spec fn compared(from: Seq<char>, to: Seq<char>, table: Option<Seq<char>>) -> RowModel {
    seq![VcValue::Text(from), VcValue::Text(to), echo_cell(table)]
}

fn comparison_cells(from: &str, to: &str, table: &Option<String>) -> (r: Vec<VcValue>)
    ensures
        r.deep_view() == compared(from@, to@, table.deep_view()),
{
    let r = vec![VcValue::Text(from.to_owned()), VcValue::Text(to.to_owned()), echo(table)];
    assert(r.deep_view() =~= compared(from@, to@, table.deep_view()));
    r
}

/// How many rows and cells differ, table by table.
pub fn build_stat(
    read: VersionResult<Vec<StatRow>>,
    from: &str,
    to: &str,
    table: &Option<String>,
) -> (r: Scan)
    ensures
        crate::model::outcome(r) == scan_of::<StatRow>(
            crate::model::outcome(read),
            compared(from@, to@, table.deep_view()),
        ),
{
    scan(read, comparison_cells(from, to, table))
}

/// What kind of change each table has.
pub fn build_summary(
    read: VersionResult<Vec<SummaryRow>>,
    from: &str,
    to: &str,
    table: &Option<String>,
) -> (r: Scan)
    ensures
        crate::model::outcome(r) == scan_of::<SummaryRow>(
            crate::model::outcome(read),
            compared(from@, to@, table.deep_view()),
        ),
{
    scan(read, comparison_cells(from, to, table))
}

/// The schemas that differ. Without both sides there is nothing to compare.
pub fn build_schema_diff(
    read: VersionResult<Vec<SchemaDiffRow>>,
    from: &str,
    to: &str,
    table: &Option<String>,
) -> (r: Scan)
    ensures
        crate::model::outcome(r) == (if from@ == ""@ || to@ == ""@ {
            Ok(Seq::<RowModel>::empty())
        } else {
            scan_of::<SchemaDiffRow>(
                crate::model::outcome(read),
                compared(from@, to@, table.deep_view()),
            )
        }),
{
    if str_eq(from, "") || str_eq(to, "") {
        let none: Vec<Vec<VcValue>> = Vec::new();
        assert(none.deep_view() =~= Seq::<RowModel>::empty());
        return Ok(none);
    }
    scan(read, comparison_cells(from, to, table))
}

/// The statements of a patch.
pub fn build_patch(
    read: VersionResult<Vec<PatchRow>>,
    from: &str,
    to: &str,
    table: &Option<String>,
) -> (r: Scan)
    ensures
        crate::model::outcome(r) == scan_of::<PatchRow>(
            crate::model::outcome(read),
            compared(from@, to@, table.deep_view()),
        ),
{
    scan(read, comparison_cells(from, to, table))
}

// ---------------------------------------------------------------------------
// Scans of one table
// ---------------------------------------------------------------------------

/// The rows of a table through its history.
pub fn build_history_t(read: VersionResult<Vec<HistoryRow>>) -> (r: Scan)
    ensures
        crate::model::outcome(r) == scan_of::<HistoryRow>(
            crate::model::outcome(read),
            RowModel::empty(),
        ),
{
    scan(read, no_echo())
}

/// The rows of a table at a revision, each with the revision that was asked for.
pub fn build_at_t(read: VersionResult<Vec<VcRow>>, idx_str: &str, args: &ScanArgs) -> (r: Scan)
    ensures
        crate::model::outcome(r) == scan_of::<VcRow>(
            crate::model::outcome(read),
            seq![
                echo_cell(
                    match last_ref(bound_columns(idx_str@, args.deep_view())) {
                        Some(b) => Some(b.1),
                        None => None,
                    },
                ),
            ],
        ),
{
    let rev = table_ref(idx_str, args);
    let behind = vec![echo(&rev)];
    assert(behind.deep_view() =~= seq![echo_cell(rev.deep_view())]);
    scan(read, behind)
}

/// The keys of a table, each with the commit that last changed its row.
pub fn build_blame_t(read: VersionResult<Vec<BlameRow>>) -> (r: Scan)
    ensures
        crate::model::outcome(r) == scan_of::<BlameRow>(
            crate::model::outcome(read),
            RowModel::empty(),
        ),
{
    scan(read, no_echo())
}

/// The changed rows of a table, each with the references that were asked for.
pub open spec fn changed_rows(
    records: Seq<TableDiffModel>,
    refs: Option<(Seq<char>, Seq<char>)>,
) -> Seq<RowModel> {
    match refs {
        Some((from, to)) => records.map_values(|d: TableDiffModel| diff_cells_of(d, from, to)),
        None => records.map_values(|d: TableDiffModel| diff_cells_of(d, ""@, ""@)),
    }
}

fn list_changes(records: &Vec<TableDiffRow>, from: &str, to: &str) -> (r: Vec<Vec<VcValue>>)
    ensures
        r.deep_view() == records.deep_view().map_values(
            |d: TableDiffModel| diff_cells_of(d, from@, to@),
        ),
{
    let ghost all = records.deep_view();
    let mut out: Vec<Vec<VcValue>> = Vec::new();
    let mut i: usize = 0;
    while i < records.len()
        invariant
            i <= records@.len(),
            all == records.deep_view(),
            out@.len() == i,
            forall|j: int|
                0 <= j < i ==> (#[trigger] out@[j]).deep_view() == diff_cells_of(all[j], from@, to@),
        decreases records.len() - i,
    {
        assert(all[i as int] == records@[i as int].deep_view());
        out.push(diff_cells(&records[i], from, to));
        i = i + 1;
    }
    assert(out.deep_view() =~= all.map_values(|d: TableDiffModel| diff_cells_of(d, from@, to@)));
    out
}

/// The changed rows of a table.
pub fn build_diff_t(read: VersionResult<Vec<TableDiffRow>>, idx_str: &str, args: &ScanArgs) -> (r: Scan)
    ensures
        crate::model::outcome(r) == (match crate::model::outcome(read) {
            Ok(records) => Ok(
                changed_rows(records, two_refs(bound_columns(idx_str@, args.deep_view()))),
            ),
            Err(e) => Err(crate::model::version_message(e)),
        }),
{
    match read {
        Ok(records) => Ok(
            match diff_refs(idx_str, args) {
                Some((from, to)) => list_changes(&records, from.as_str(), to.as_str()),
                None => list_changes(&records, "", ""),
            },
        ),
        Err(e) => Err(e.to_string()),
    }
}

} // verus!
