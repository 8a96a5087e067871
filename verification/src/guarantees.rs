//! What holds of a whole run, from the submissions to the report, whatever
//! the executor answered and in whatever order the answers arrived.

use crate::aggregate::{is_report_of, latest_by_id, lemma_latest_is_last, row_ids};
use crate::orchestrator::{collected_from, is_arrival_order, lemma_distinct_slots, DispatchView,
    Strategy};
use crate::task::{final_status_text, project, TaskInputView, TaskOutputView, TaskResultView,
    TaskStatus};
use vstd::prelude::*;

verus! {

/// The identities of a list of submissions, in submission order.
pub open spec fn task_ids(tasks: Seq<TaskInputView>) -> Seq<u64> {
    tasks.map_values(|task: TaskInputView| task.task_id)
}

/// The identities of a list of results, in the order of the results.
pub open spec fn result_ids(results: Seq<TaskResultView>) -> Seq<u64> {
    results.map_values(|result: TaskResultView| result.task_id)
}

/// The pairs of identity and status that a list of results holds.
pub open spec fn outcomes(results: Seq<TaskResultView>) -> Set<(u64, TaskStatus)> {
    results.map_values(|result: TaskResultView| (result.task_id, result.status)).to_set()
}

/// The pairs of identity and reported status that a list of rows holds.
pub open spec fn verdicts(rows: Seq<TaskOutputView>) -> Set<(u64, Seq<char>)> {
    rows.map_values(|row: TaskOutputView| (row.task_id, row.final_status)).to_set()
}

/// The executor is deterministic on these results: the status of each is
/// `verdict` of its identity.
pub open spec fn follows(results: Seq<TaskResultView>, verdict: spec_fn(u64) -> TaskStatus) -> bool {
    forall|k: int| 0 <= k < results.len() ==> (#[trigger] results[k]).status == verdict(
        results[k].task_id,
    )
}

/// A reported status is `Completed` or `Failed`, and so never `Pending` or
/// `Running`, whatever the status of the result was.
pub proof fn lemma_final_status_is_terminal(status: TaskStatus)
    ensures
        final_status_text(status) == "Completed"@ || final_status_text(status) == "Failed"@,
        status == TaskStatus::Completed <==> final_status_text(status) == "Completed"@,
        final_status_text(status) != "Pending"@,
        final_status_text(status) != "Running"@,
{
    reveal_strlit("Completed");
    reveal_strlit("Failed");
    reveal_strlit("Pending");
    reveal_strlit("Running");
    assert("Completed"@[0] == 'C');
    assert("Failed"@[0] == 'F');
    assert("Pending"@[0] == 'P');
    assert("Running"@[0] == 'R');
}

/// No row of a report carries a status other than `Completed` or `Failed`.
pub proof fn lemma_report_statuses(rows: Seq<TaskOutputView>, results: Seq<TaskResultView>)
    requires
        is_report_of(rows, results),
    ensures
        forall|i: int|
            0 <= i < rows.len() ==> {
                &&& (#[trigger] rows[i]).final_status == "Completed"@ || rows[i].final_status
                    == "Failed"@
                &&& rows[i].final_status != "Pending"@
                &&& rows[i].final_status != "Running"@
            },
{
    assert forall|i: int| 0 <= i < rows.len() implies {
        &&& (#[trigger] rows[i]).final_status == "Completed"@ || rows[i].final_status == "Failed"@
        &&& rows[i].final_status != "Pending"@
        &&& rows[i].final_status != "Running"@
    } by {
        lemma_final_status_is_terminal(latest_by_id(results)[rows[i].task_id].status);
    }
}

/// A finished run has collected results for exactly the identities that were
/// submitted.
pub proof fn lemma_collected_ids(results: Seq<TaskResultView>, tasks: Seq<TaskInputView>)
    requires
        collected_from(results, tasks),
    ensures
        results.len() == tasks.len(),
        result_ids(results).to_set() == task_ids(tasks).to_set(),
{
    let arrivals = choose|arrivals: Seq<int>| is_arrival_order(arrivals, results, tasks);
    lemma_distinct_slots(arrivals, tasks.len());
    assert forall|id: u64| result_ids(results).to_set().contains(id) implies task_ids(
        tasks,
    ).to_set().contains(id) by {
        let k = choose|k: int| 0 <= k < results.len() && result_ids(results)[k] == id;
        assert(task_ids(tasks)[arrivals[k]] == id);
    }
    assert forall|id: u64| task_ids(tasks).to_set().contains(id) implies result_ids(
        results,
    ).to_set().contains(id) by {
        let slot = choose|slot: int| 0 <= slot < tasks.len() && task_ids(tasks)[slot] == id;
        assert(arrivals.contains(slot));
        let k = choose|k: int| 0 <= k < arrivals.len() && arrivals[k] == slot;
        assert(result_ids(results)[k] == id);
    }
    assert(result_ids(results).to_set() =~= task_ids(tasks).to_set());
}

/// The report of a finished run has exactly one row for each identity that
/// was submitted, however often it was submitted.
pub proof fn lemma_one_row_per_identity(
    tasks: Seq<TaskInputView>,
    results: Seq<TaskResultView>,
    rows: Seq<TaskOutputView>,
)
    requires
        collected_from(results, tasks),
        is_report_of(rows, results),
    ensures
        row_ids(rows).no_duplicates(),
        row_ids(rows).to_set() == task_ids(tasks).to_set(),
        rows.len() == task_ids(tasks).to_set().len(),
{
    lemma_collected_ids(results, tasks);
    lemma_latest_is_last(results);
    assert forall|id: u64|
        latest_by_id(results).dom().contains(id) <==> result_ids(results).to_set().contains(
            id,
        ) by {
        if latest_by_id(results).dom().contains(id) {
            let k = choose|k: int| 0 <= k < results.len() && (#[trigger] results[k]).task_id == id;
            assert(result_ids(results)[k] == id);
        }
        if result_ids(results).to_set().contains(id) {
            let k = choose|k: int| 0 <= k < results.len() && result_ids(results)[k] == id;
            assert(results[k].task_id == id);
        }
    }
    assert(latest_by_id(results).dom() =~= result_ids(results).to_set());
    row_ids(rows).unique_seq_to_set();
}

/// Where no identity is submitted twice, the report of a finished run has as
/// many rows as there were submissions, each `Completed` or `Failed`.
pub proof fn lemma_distinct_identities_keep_every_row(
    tasks: Seq<TaskInputView>,
    results: Seq<TaskResultView>,
    rows: Seq<TaskOutputView>,
)
    requires
        task_ids(tasks).no_duplicates(),
        collected_from(results, tasks),
        is_report_of(rows, results),
    ensures
        rows.len() == tasks.len(),
        forall|i: int|
            0 <= i < rows.len() ==> (#[trigger] rows[i]).final_status == "Completed"@
                || rows[i].final_status == "Failed"@,
{
    lemma_one_row_per_identity(tasks, results, rows);
    task_ids(tasks).unique_seq_to_set();
    lemma_report_statuses(rows, results);
}

/// Under a deterministic executor the collected pairs of identity and status
/// are fixed by the submissions alone, and so are the reported ones.
pub proof fn lemma_deterministic_outcomes(
    tasks: Seq<TaskInputView>,
    results: Seq<TaskResultView>,
    rows: Seq<TaskOutputView>,
    verdict: spec_fn(u64) -> TaskStatus,
)
    requires
        collected_from(results, tasks),
        follows(results, verdict),
        is_report_of(rows, results),
    ensures
        forall|pair: (u64, TaskStatus)| #[trigger]
            outcomes(results).contains(pair) <==> task_ids(tasks).contains(pair.0) && pair.1
                == verdict(pair.0),
        forall|pair: (u64, Seq<char>)| #[trigger]
            verdicts(rows).contains(pair) <==> task_ids(tasks).contains(pair.0) && pair.1
                == final_status_text(verdict(pair.0)),
{
    let pairs = results.map_values(|result: TaskResultView| (result.task_id, result.status));
    let told = rows.map_values(|row: TaskOutputView| (row.task_id, row.final_status));
    lemma_collected_ids(results, tasks);
    lemma_one_row_per_identity(tasks, results, rows);
    lemma_latest_is_last(results);
    assert forall|pair: (u64, TaskStatus)| #[trigger]
        outcomes(results).contains(pair) <==> task_ids(tasks).contains(pair.0) && pair.1
            == verdict(pair.0) by {
        if outcomes(results).contains(pair) {
            let k = choose|k: int| 0 <= k < pairs.len() && pairs[k] == pair;
            assert(results[k].status == verdict(results[k].task_id));
            assert(result_ids(results)[k] == pair.0);
            assert(result_ids(results).to_set().contains(pair.0));
            assert(task_ids(tasks).to_set().contains(pair.0));
        }
        if task_ids(tasks).contains(pair.0) && pair.1 == verdict(pair.0) {
            assert(task_ids(tasks).to_set().contains(pair.0));
            assert(result_ids(results).to_set().contains(pair.0));
            let k = choose|k: int| 0 <= k < results.len() && result_ids(results)[k] == pair.0;
            assert(results[k].status == verdict(results[k].task_id));
            assert(pairs[k] == pair);
        }
    }
    assert forall|pair: (u64, Seq<char>)| #[trigger]
        verdicts(rows).contains(pair) <==> task_ids(tasks).contains(pair.0) && pair.1
            == final_status_text(verdict(pair.0)) by {
        if verdicts(rows).contains(pair) {
            let i = choose|i: int| 0 <= i < told.len() && told[i] == pair;
            assert(row_ids(rows)[i] == pair.0);
            assert(row_ids(rows).to_set().contains(pair.0));
            assert(task_ids(tasks).to_set().contains(pair.0));
            let kept = latest_by_id(results)[pair.0];
            assert(latest_by_id(results).dom().contains(pair.0));
            let k = choose|k: int| 0 <= k < results.len() && results[k] == kept;
            assert(results[k].status == verdict(results[k].task_id));
            assert(rows[i] == project(kept));
        }
        if task_ids(tasks).contains(pair.0) && pair.1 == final_status_text(verdict(pair.0)) {
            assert(task_ids(tasks).to_set().contains(pair.0));
            assert(row_ids(rows).to_set().contains(pair.0));
            let i = choose|i: int| 0 <= i < rows.len() && row_ids(rows)[i] == pair.0;
            let kept = latest_by_id(results)[pair.0];
            assert(latest_by_id(results).dom().contains(pair.0));
            let k = choose|k: int| 0 <= k < results.len() && results[k] == kept;
            assert(results[k].status == verdict(results[k].task_id));
            assert(rows[i] == project(kept));
            assert(told[i] == pair);
        }
    }
}

/// The two strategies agree. Where the executor is deterministic, a complete
/// run over the bounded queue and a complete run over the unordered pool of
/// the same submissions collect the same set of pairs of identity and status,
/// and their reports hold the same set of pairs of identity and reported
/// status: only the order may differ.
pub proof fn lemma_strategies_agree(
    bounded: DispatchView,
    pool: DispatchView,
    verdict: spec_fn(u64) -> TaskStatus,
    bounded_rows: Seq<TaskOutputView>,
    pool_rows: Seq<TaskOutputView>,
)
    requires
        bounded.wf(),
        pool.wf(),
        bounded.strategy == Strategy::BoundedQueue,
        pool.strategy == Strategy::UnorderedPool,
        bounded.tasks == pool.tasks,
        bounded.is_complete(),
        pool.is_complete(),
        follows(bounded.results, verdict),
        follows(pool.results, verdict),
        is_report_of(bounded_rows, bounded.results),
        is_report_of(pool_rows, pool.results),
    ensures
        outcomes(bounded.results) == outcomes(pool.results),
        verdicts(bounded_rows) == verdicts(pool_rows),
{
    bounded.lemma_complete_run();
    pool.lemma_complete_run();
    lemma_deterministic_outcomes(bounded.tasks, bounded.results, bounded_rows, verdict);
    lemma_deterministic_outcomes(pool.tasks, pool.results, pool_rows, verdict);
    assert(outcomes(bounded.results) =~= outcomes(pool.results));
    assert(verdicts(bounded_rows) =~= verdicts(pool_rows));
}

} // verus!
