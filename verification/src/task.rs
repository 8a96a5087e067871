//! The data that flows through a run: submissions, per-task results and the
//! rows of the final report.

use crate::aggregate::{aggregate_results, is_report_of};
use crate::number::{decimal, decimal_string, parse_id, parse_task_id};
use crate::table::{csv_bytes, csv_table, finish_writer, intact, new_writer, next_record,
    open_reader, read_header, records_ahead, text_from_utf8, write_record, written_records};
use vstd::prelude::*;
use vstd::utf8::{decode_utf8, valid_utf8};

verus! {

/// One submitted unit of work. The identity is `task_id`; two submissions may
/// share it.
#[derive(Debug)]
pub struct TaskInput {
    pub task_id: u64,
    pub task_type: String,
}

/// Where a task stands. Only `Completed` and `Failed` are terminal.
#[derive(Debug, Clone, Copy, PartialEq, Eq, Structural)]
pub enum TaskStatus {
    Pending,
    Running,
    Completed,
    Failed,
}

/// What one execution attempt came to.
#[derive(Debug)]
pub struct TaskResult {
    pub task_id: u64,
    pub status: TaskStatus,
    pub error_info: Option<String>,
}

/// One row of the report.
#[derive(Debug)]
pub struct TaskOutput {
    pub task_id: u64,
    pub final_status: String,
    pub error_info: String,
}

/// Mathematical value of a [`TaskInput`].
pub struct TaskInputView {
    pub task_id: u64,
    pub task_type: Seq<char>,
}

/// Mathematical value of a [`TaskResult`].
pub struct TaskResultView {
    pub task_id: u64,
    pub status: TaskStatus,
    pub error_info: Option<Seq<char>>,
}

/// Mathematical value of a [`TaskOutput`].
pub struct TaskOutputView {
    pub task_id: u64,
    pub final_status: Seq<char>,
    pub error_info: Seq<char>,
}

impl View for TaskInput {
    type V = TaskInputView;

    open spec fn view(&self) -> TaskInputView {
        TaskInputView { task_id: self.task_id, task_type: self.task_type@ }
    }
}

impl View for TaskResult {
    type V = TaskResultView;

    open spec fn view(&self) -> TaskResultView {
        TaskResultView {
            task_id: self.task_id,
            status: self.status,
            error_info: match self.error_info {
                Some(text) => Some(text@),
                None => None,
            },
        }
    }
}

impl View for TaskOutput {
    type V = TaskOutputView;

    open spec fn view(&self) -> TaskOutputView {
        TaskOutputView {
            task_id: self.task_id,
            final_status: self.final_status@,
            error_info: self.error_info@,
        }
    }
}

/// The values of a list of submissions.
pub open spec fn input_views(tasks: Seq<TaskInput>) -> Seq<TaskInputView> {
    tasks.map_values(|task: TaskInput| task@)
}

/// The values of a list of results.
pub open spec fn result_views(results: Seq<TaskResult>) -> Seq<TaskResultView> {
    results.map_values(|result: TaskResult| result@)
}

/// The values of a list of report rows.
pub open spec fn output_views(rows: Seq<TaskOutput>) -> Seq<TaskOutputView> {
    rows.map_values(|row: TaskOutput| row@)
}

impl TaskStatus {
    /// A terminal status is one a finished attempt can carry.
    pub open spec fn is_terminal(self) -> bool {
        self == TaskStatus::Completed || self == TaskStatus::Failed
    }
}

impl Clone for TaskInput {
    fn clone(&self) -> (res: Self)
        ensures
            res@ == self@,
    {
        TaskInput { task_id: self.task_id, task_type: self.task_type.clone() }
    }
}

impl Clone for TaskResult {
    fn clone(&self) -> (res: Self)
        ensures
            res@ == self@,
    {
        let error_info = match &self.error_info {
            Some(text) => Some(text.clone()),
            None => None,
        };
        TaskResult { task_id: self.task_id, status: self.status, error_info }
    }
}

/// The text a status is reported as: `Completed` for a completed task,
/// `Failed` for every other status.
pub open spec fn final_status_text(status: TaskStatus) -> Seq<char> {
    if status == TaskStatus::Completed {
        "Completed"@
    } else {
        "Failed"@
    }
}

/// The report row that a result projects to.
pub open spec fn project(result: TaskResultView) -> TaskOutputView {
    TaskOutputView {
        task_id: result.task_id,
        final_status: final_status_text(result.status),
        error_info: match result.error_info {
            Some(text) => text,
            None => Seq::empty(),
        },
    }
}

impl From<TaskResult> for TaskOutput {
    /// Projects a result into its report row. A status that is not
    /// `Completed` is reported as `Failed`; a missing error text as the empty
    /// text.
    fn from(result: TaskResult) -> (out: Self)
        ensures
            out@ == project(result@),
    {
        let final_status = match result.status {
            TaskStatus::Completed => "Completed".to_string(),
            _ => "Failed".to_string(),
        };
        let error_info = match result.error_info {
            Some(text) => text,
            None => String::new(),
        };
        TaskOutput { task_id: result.task_id, final_status, error_info }
    }
}

/// Rows are compared by their views, so `from` states its result through
/// [`project`] and not through an equation between rows.
impl vstd::std_specs::convert::FromSpecImpl<TaskResult> for TaskOutput {
    open spec fn obeys_from_spec() -> bool {
        false
    }

    open spec fn from_spec(result: TaskResult) -> Self {
        arbitrary()
    }
}

/// Why a text holds no list of submissions.
#[derive(Debug, Clone, Copy, PartialEq, Eq, Structural)]
pub enum InputError {
    /// The text is no table: the reader refused it.
    Table,
    /// There are records, and the header lacks `task_id` or `task_type`.
    MissingColumn,
    /// There are records, and the header names `task_id` or `task_type` more
    /// than once.
    DuplicateColumn,
    /// The record at this position, counted from zero after the header, is
    /// the first that holds no submission.
    InvalidRecord { record: usize },
}

/// How many columns of a header carry a name.
pub open spec fn count_named(header: Seq<Seq<char>>, name: Seq<char>) -> nat
    decreases header.len(),
{
    if header.len() == 0 {
        0
    } else {
        count_named(header.drop_last(), name) + if header.last() == name {
            1nat
        } else {
            0nat
        }
    }
}

/// A column that carries a name: the only one, where [`count_named`] is one.
pub open spec fn column_named(header: Seq<Seq<char>>, name: Seq<char>) -> int {
    choose|i: int| 0 <= i < header.len() && header[i] == name
}

/// The submission that a record holds: its identity read from the identity
/// column, its type taken as it stands. A record too short for either column,
/// or whose identity field spells no identity, holds none.
pub open spec fn task_in(record: Seq<Seq<char>>, id_column: int, type_column: int) -> Option<
    TaskInputView,
> {
    if 0 <= id_column < record.len() && 0 <= type_column < record.len() {
        match parse_id(record[id_column]) {
            Some(task_id) => Some(TaskInputView { task_id, task_type: record[type_column] }),
            None => None,
        }
    } else {
        None
    }
}

/// The submissions that a list of records holds, in the order of the
/// records, or the position of the first record that holds none.
pub open spec fn tasks_in(records: Seq<Seq<Seq<char>>>, id_column: int, type_column: int) -> Result<
    Seq<TaskInputView>,
    int,
>
    decreases records.len(),
{
    if records.len() == 0 {
        Ok(Seq::empty())
    } else {
        match tasks_in(records.drop_last(), id_column, type_column) {
            Err(first) => Err(first),
            Ok(tasks) => match task_in(records.last(), id_column, type_column) {
                Some(task) => Ok(tasks.push(task)),
                None => Err(records.len() - 1),
            },
        }
    }
}

/// The submissions of a table. A table without records holds none, whatever
/// its header. With records, the header must name `task_id` and `task_type`
/// once each, in any position and among any other columns, and every record
/// must hold a submission.
pub open spec fn tasks_of_table(header: Seq<Seq<char>>, records: Seq<Seq<Seq<char>>>) -> Result<
    Seq<TaskInputView>,
    InputError,
> {
    if records.len() == 0 {
        Ok(Seq::empty())
    } else if count_named(header, "task_id"@) == 0 || count_named(header, "task_type"@) == 0 {
        Err(InputError::MissingColumn)
    } else if count_named(header, "task_id"@) > 1 || count_named(header, "task_type"@) > 1 {
        Err(InputError::DuplicateColumn)
    } else {
        match tasks_in(
            records,
            column_named(header, "task_id"@),
            column_named(header, "task_type"@),
        ) {
            Ok(tasks) => Ok(tasks),
            Err(first) => Err(InputError::InvalidRecord { record: first as usize }),
        }
    }
}

/// The records among what a reader yields, as far as it refuses none.
pub open spec fn accepted(yielded: Seq<Option<Seq<Seq<char>>>>) -> Option<Seq<Seq<Seq<char>>>>
    decreases yielded.len(),
{
    if yielded.len() == 0 {
        Some(Seq::empty())
    } else {
        match (accepted(yielded.drop_last()), yielded.last()) {
            (Some(records), Some(record)) => Some(records.push(record)),
            _ => None,
        }
    }
}

/// The submissions that a tabular text holds. The text is no table where the
/// reader refuses its header or any of its records.
pub open spec fn tasks_of_text(content: Seq<char>) -> Result<Seq<TaskInputView>, InputError> {
    match (csv_table(content).0, accepted(csv_table(content).1)) {
        (Some(header), Some(records)) => tasks_of_table(header, records),
        _ => Err(InputError::Table),
    }
}

/// Counts the columns that carry `name`, and finds one of them.
fn find_column(header: &Vec<String>, name: &str) -> (found: (usize, usize))
    ensures
        found.0 == count_named(header.deep_view(), name@),
        found.0 == 1 ==> found.1 == column_named(header.deep_view(), name@) && found.1
            < header@.len(),
{
    let ghost columns = header.deep_view();
    let key = name.to_string();
    let mut count: usize = 0;
    let mut column: usize = 0;
    let mut i: usize = 0;
    while i < header.len()
        invariant
            i <= header@.len(),
            columns == header.deep_view(),
            key@ == name@,
            count <= i,
            count == count_named(columns.take(i as int), name@),
            count == 0 ==> forall|j: int| 0 <= j < i ==> columns[j] != name@,
            count == 1 ==> column < i && columns[column as int] == name@ && forall|j: int|
                0 <= j < i && j != column ==> columns[j] != name@,
        decreases header@.len() - i,
    {
        proof {
            assert(columns.take(i + 1).drop_last() =~= columns.take(i as int));
            assert(columns.take(i + 1).last() == header@[i as int]@);
        }
        if header[i] == key {
            if count == 0 {
                column = i;
            }
            count += 1;
        }
        i += 1;
    }
    proof {
        assert(columns.take(i as int) =~= columns);
    }
    (count, column)
}

/// Reads the submissions of a table that is already split into fields.
pub fn tasks_from_table(header: &Vec<String>, records: &Vec<Vec<String>>) -> (out: Result<
    Vec<TaskInput>,
    InputError,
>)
    ensures
        match out {
            Ok(tasks) => tasks_of_table(header.deep_view(), records.deep_view()) == Ok::<
                Seq<TaskInputView>,
                InputError,
            >(input_views(tasks@)),
            Err(error) => tasks_of_table(header.deep_view(), records.deep_view()) == Err::<
                Seq<TaskInputView>,
                InputError,
            >(error),
        },
{
    let ghost columns = header.deep_view();
    let ghost rows = records.deep_view();
    let mut tasks: Vec<TaskInput> = Vec::new();
    if records.len() == 0 {
        assert(input_views(tasks@) =~= Seq::empty());
        return Ok(tasks);
    }
    let (id_count, id_column) = find_column(header, "task_id");
    let (type_count, type_column) = find_column(header, "task_type");
    if id_count == 0 || type_count == 0 {
        return Err(InputError::MissingColumn);
    }
    if id_count > 1 || type_count > 1 {
        return Err(InputError::DuplicateColumn);
    }
    let mut i: usize = 0;
    assert(input_views(tasks@) =~= Seq::empty());
    while i < records.len()
        invariant
            i <= records@.len(),
            columns == header.deep_view(),
            rows == records.deep_view(),
            count_named(columns, "task_id"@) == 1,
            count_named(columns, "task_type"@) == 1,
            id_column == column_named(columns, "task_id"@),
            type_column == column_named(columns, "task_type"@),
            tasks_in(rows.take(i as int), id_column as int, type_column as int) == Ok::<
                Seq<TaskInputView>,
                int,
            >(input_views(tasks@)),
        decreases records@.len() - i,
    {
        let record = &records[i];
        proof {
            assert(rows.take(i + 1).drop_last() =~= rows.take(i as int));
            assert(rows.take(i + 1).last() == record.deep_view());
        }
        if id_column >= record.len() || type_column >= record.len() {
            proof {
                lemma_first_invalid_stays(rows, id_column as int, type_column as int, i + 1);
            }
            return Err(InputError::InvalidRecord { record: i });
        }
        let task_id = match parse_task_id(record[id_column].as_str()) {
            Some(task_id) => task_id,
            None => {
                proof {
                    lemma_first_invalid_stays(rows, id_column as int, type_column as int, i + 1);
                }
                return Err(InputError::InvalidRecord { record: i });
            },
        };
        let ghost before = input_views(tasks@);
        tasks.push(TaskInput { task_id, task_type: record[type_column].clone() });
        proof {
            assert(input_views(tasks@) =~= before.push(
                TaskInputView { task_id, task_type: record.deep_view()[type_column as int] },
            ));
        }
        i += 1;
    }
    proof {
        assert(rows.take(i as int) =~= rows);
    }
    Ok(tasks)
}

/// Once a beginning of the records holds an invalid one, the first invalid
/// record of the whole list is that of the beginning.
proof fn lemma_first_invalid_stays(
    records: Seq<Seq<Seq<char>>>,
    id_column: int,
    type_column: int,
    len: int,
)
    requires
        0 <= len <= records.len(),
        tasks_in(records.take(len), id_column, type_column) is Err,
    ensures
        tasks_in(records, id_column, type_column) == tasks_in(
            records.take(len),
            id_column,
            type_column,
        ),
    decreases records.len(),
{
    if len == records.len() {
        assert(records.take(len) =~= records);
    } else {
        assert(records.drop_last().take(len) =~= records.take(len));
        lemma_first_invalid_stays(records.drop_last(), id_column, type_column, len);
    }
}

/// Reads the submissions of a tabular text: a header that names `task_id`
/// and `task_type`, then one record for each submission.
pub fn read_tasks_from_csv(content: &str) -> (out: Result<Vec<TaskInput>, InputError>)
    ensures
        match out {
            Ok(tasks) => tasks_of_text(content@) == Ok::<Seq<TaskInputView>, InputError>(
                input_views(tasks@),
            ),
            Err(error) => tasks_of_text(content@) == Err::<Seq<TaskInputView>, InputError>(error),
        },
{
    let mut reader = open_reader(content);
    let header = match read_header(&mut reader) {
        Ok(header) => header,
        Err(_) => {
            return Err(InputError::Table);
        },
    };
    let ghost yielded = csv_table(content@).1;
    let mut records: Vec<Vec<String>> = Vec::new();
    proof {
        assert(yielded.take(0) =~= Seq::empty());
        assert(records.deep_view() =~= Seq::empty());
        assert(yielded.skip(0) =~= yielded);
    }
    loop
        invariant
            yielded == csv_table(content@).1,
            csv_table(content@).0 == Some(header.deep_view()),
            records@.len() <= yielded.len(),
            records_ahead(reader) == yielded.skip(records@.len() as int),
            accepted(yielded.take(records@.len() as int)) == Some(records.deep_view()),
        decreases yielded.len() - records@.len(),
    {
        let ghost read = records@.len() as int;
        let ghost before = records.deep_view();
        match next_record(&mut reader) {
            Ok(Some(record)) => {
                records.push(record);
                proof {
                    assert(yielded.take(read + 1).drop_last() =~= yielded.take(read));
                    assert(yielded.skip(read).drop_first() =~= yielded.skip(read + 1));
                    assert(records.deep_view() =~= before.push(record.deep_view()));
                }
            },
            Ok(None) => {
                proof {
                    assert(yielded.take(read) =~= yielded);
                }
                return tasks_from_table(&header, &records);
            },
            Err(_) => {
                proof {
                    assert(yielded.take(read + 1).drop_last() =~= yielded.take(read));
                    lemma_refusal_stays(yielded, read + 1);
                }
                return Err(InputError::Table);
            },
        }
    }
}

/// Once a reader has refused a record, it has refused the text.
proof fn lemma_refusal_stays(yielded: Seq<Option<Seq<Seq<char>>>>, len: int)
    requires
        0 <= len <= yielded.len(),
        accepted(yielded.take(len)) is None,
    ensures
        accepted(yielded) is None,
    decreases yielded.len(),
{
    if len == yielded.len() {
        assert(yielded.take(len) =~= yielded);
    } else {
        assert(yielded.drop_last().take(len) =~= yielded.take(len));
        lemma_refusal_stays(yielded.drop_last(), len);
    }
}

/// Why a report could not be written. A report of this crate's rows is
/// always written: the writer is in memory and every record has three fields.
/// The type names what the writer's calls can answer in general.
#[derive(Debug, Clone, Copy, PartialEq, Eq, Structural)]
pub enum OutputError {
    /// The writer refused a record.
    Write,
    /// The writer could not hand out what it had written.
    Flush,
    /// What the writer produced is not valid UTF-8.
    Encoding,
}

/// The header of a report.
pub open spec fn header_fields() -> Seq<Seq<char>> {
    seq!["task_id"@, "final_status"@, "error_info"@]
}

/// The fields of a report row: the identity in decimal, the status text, the
/// error text.
pub open spec fn row_fields(row: TaskOutputView) -> Seq<Seq<char>> {
    seq![decimal(row.task_id as nat), row.final_status, row.error_info]
}

/// The records of a report: the header, then the rows in their order.
pub open spec fn report_records(rows: Seq<TaskOutputView>) -> Seq<Seq<Seq<char>>> {
    seq![header_fields()] + rows.map_values(|row: TaskOutputView| row_fields(row))
}

/// `text` is the tabular text of a report with these rows.
pub open spec fn is_report_text(text: Seq<char>, rows: Seq<TaskOutputView>) -> bool {
    &&& valid_utf8(csv_bytes(report_records(rows)))
    &&& text == decode_utf8(csv_bytes(report_records(rows)))
}

impl TaskOutput {
    /// The header of a report, as fields.
    pub fn header() -> (fields: Vec<String>)
        ensures
            fields.deep_view() == header_fields(),
    {
        let mut fields: Vec<String> = Vec::new();
        fields.push("task_id".to_string());
        fields.push("final_status".to_string());
        fields.push("error_info".to_string());
        assert(fields.deep_view() =~= header_fields());
        fields
    }

    /// This row, as fields.
    pub fn fields(&self) -> (fields: Vec<String>)
        ensures
            fields.deep_view() == row_fields(self@),
    {
        let mut fields: Vec<String> = Vec::new();
        fields.push(decimal_string(self.task_id));
        fields.push(self.final_status.clone());
        fields.push(self.error_info.clone());
        assert(fields.deep_view() =~= row_fields(self@));
        fields
    }
}

/// Writes a report as tabular text: the header, then one record for each
/// row, in the order of the rows. The header is written for an empty report
/// too. Writing succeeds for every list of rows.
pub fn report_to_csv(rows: &Vec<TaskOutput>) -> (out: Result<String, OutputError>)
    ensures
        out is Ok,
        out matches Ok(text) ==> is_report_text(text@, output_views(rows@)),
{
    let ghost report = output_views(rows@);
    let mut writer = new_writer();
    let header = TaskOutput::header();
    if write_record(&mut writer, &header).is_err() {
        return Err(OutputError::Write);
    }
    let mut i: usize = 0;
    while i < rows.len()
        invariant
            i <= rows@.len(),
            report == output_views(rows@),
            intact(writer),
            written_records(writer) == report_records(report.take(i as int)),
        decreases rows@.len() - i,
    {
        let fields = rows[i].fields();
        proof {
            assert(report_records(report.take(i as int))[0] == header_fields());
        }
        if write_record(&mut writer, &fields).is_err() {
            return Err(OutputError::Write);
        }
        proof {
            let before = report.take(i as int);
            let after = report.take(i + 1);
            assert(after.drop_last() =~= before);
            assert(report_records(after) =~= report_records(before).push(
                row_fields(report[i as int]),
            ));
        }
        i += 1;
    }
    proof {
        assert(report.take(i as int) =~= report);
    }
    let bytes = match finish_writer(writer) {
        Ok(bytes) => bytes,
        Err(_) => {
            return Err(OutputError::Flush);
        },
    };
    match text_from_utf8(bytes) {
        Ok(text) => Ok(text),
        Err(_) => Err(OutputError::Encoding),
    }
}

/// Folds the collected results into one verdict per identity, the last
/// collected one, and writes the report of the survivors as tabular text.
/// The order of the rows is not fixed. Writing succeeds for every list of
/// results.
pub fn write_results_to_csv(results: &[TaskResult]) -> (out: Result<String, OutputError>)
    ensures
        out is Ok,
        out matches Ok(text) ==> exists|rows: Seq<TaskOutputView>| #[trigger]
            is_report_of(rows, result_views(results@)) && is_report_text(text@, rows),
{
    let rows = aggregate_results(results);
    let out = report_to_csv(&rows);
    proof {
        assert(is_report_of(output_views(rows@), result_views(results@)));
    }
    out
}

} // verus!
