//! The result aggregator: one verdict per task identity, the one that was
//! collected last.

use crate::task::{output_views, project, result_views, TaskOutput, TaskOutputView, TaskResult,
    TaskResultView};
use ahash::AHashMap;
use vstd::prelude::*;

verus! {

/// `ahash::RandomState`, the hasher that an `AHashMap` is keyed with.
#[verifier::external_type_specification]
#[verifier::external_body]
pub struct ExRandomState(ahash::RandomState);

/// `ahash::AHashMap`, which is carried and never looked into.
#[verifier::external_type_specification]
#[verifier::external_body]
#[verifier::reject_recursive_types(K)]
#[verifier::reject_recursive_types(V)]
#[verifier::reject_recursive_types(S)]
pub struct ExAHashMap<K, V, S>(AHashMap<K, V, S>);

/// What a map of results holds: the value of the result kept under each
/// identity.
pub uninterp spec fn kept(map: AHashMap<u64, TaskResult>) -> Map<u64, TaskResultView>;

/// The map that keeps nothing.
pub open spec fn empty_map() -> Map<u64, TaskResultView> {
    Map::empty()
}

/// `values` lists what `entries` holds, each entry once, in some order.
pub open spec fn lists_each_once(values: Seq<TaskResultView>, entries: Map<u64, TaskResultView>) -> bool {
    exists|keys: Seq<u64>|
        {
            &&& keys.no_duplicates()
            &&& keys.to_set() == entries.dom()
            &&& #[trigger] keys.len() == values.len()
            &&& forall|i: int| 0 <= i < keys.len() ==> values[i] == entries[#[trigger] keys[i]]
        }
}

/// The values of a list of borrowed results.
pub open spec fn borrowed_views(results: Seq<&TaskResult>) -> Seq<TaskResultView> {
    results.map_values(|result: &TaskResult| result@)
}

/// `AHashMap::new`: a map that holds nothing.
#[verifier::external_body]
fn new_map() -> (fresh: AHashMap<u64, TaskResult>)
    ensures
        kept(fresh) == empty_map(),
{
    AHashMap::new()
}

/// `AHashMap::insert`: the map then holds `result` under `task_id`, in place
/// of what it held there, and everything else as before.
#[verifier::external_body]
fn keep(map: &mut AHashMap<u64, TaskResult>, task_id: u64, result: TaskResult)
    ensures
        kept(*final(map)) == kept(*old(map)).insert(task_id, result@),
{
    map.insert(task_id, result);
}

/// `HashMap::values`, which an `AHashMap` has by dereferencing: every value
/// of the map once, in an order that nothing is said of.
#[verifier::external_body]
fn kept_values<'a>(map: &'a AHashMap<u64, TaskResult>) -> (values: Vec<&'a TaskResult>)
    ensures
        lists_each_once(borrowed_views(values@), kept(*map)),
{
    map.values().collect()
}

/// The fold that keeps, for each identity, the result that comes last in the
/// list.
pub open spec fn latest_by_id(results: Seq<TaskResultView>) -> Map<u64, TaskResultView>
    decreases results.len(),
{
    if results.len() == 0 {
        Map::empty()
    } else {
        latest_by_id(results.drop_last()).insert(results.last().task_id, results.last())
    }
}

/// The result at `k` is the last one of its identity.
pub open spec fn is_last_of_its_id(results: Seq<TaskResultView>, k: int) -> bool {
    &&& 0 <= k < results.len()
    &&& forall|j: int| k < j < results.len() ==> (#[trigger] results[j]).task_id != results[k].task_id
}

/// The identities of a list of rows, in the order of the rows.
pub open spec fn row_ids(rows: Seq<TaskOutputView>) -> Seq<u64> {
    rows.map_values(|row: TaskOutputView| row.task_id)
}

/// `rows` is a report of `results`: one row for each identity that occurs,
/// no identity twice, and each row the projection of the last result of its
/// identity. The order of the rows is left open.
pub open spec fn is_report_of(rows: Seq<TaskOutputView>, results: Seq<TaskResultView>) -> bool {
    &&& row_ids(rows).no_duplicates()
    &&& row_ids(rows).to_set() == latest_by_id(results).dom()
    &&& forall|i: int|
        0 <= i < rows.len() ==> #[trigger] rows[i] == project(
            latest_by_id(results)[rows[i].task_id],
        )
}

/// The fold keeps exactly the identities that occur, and under each the
/// result that was collected last: not the first one submitted, and not the
/// one with the largest identity.
pub proof fn lemma_latest_is_last(results: Seq<TaskResultView>)
    ensures
        forall|id: u64|
            latest_by_id(results).dom().contains(id) <==> exists|k: int|
                0 <= k < results.len() && (#[trigger] results[k]).task_id == id,
        forall|k: int| #[trigger]
            is_last_of_its_id(results, k) ==> latest_by_id(results)[results[k].task_id]
                == results[k],
        forall|id: u64| #[trigger]
            latest_by_id(results).dom().contains(id) ==> latest_by_id(results)[id].task_id == id
                && results.contains(latest_by_id(results)[id]),
    decreases results.len(),
{
    if results.len() > 0 {
        let earlier = results.drop_last();
        let newest = results.last();
        lemma_latest_is_last(earlier);
        assert forall|id: u64| #[trigger]
            latest_by_id(results).dom().contains(id) implies results.contains(
            latest_by_id(results)[id],
        ) by {
            if id == newest.task_id {
                assert(results[results.len() - 1] == newest);
            } else {
                let kept = latest_by_id(earlier)[id];
                let k = choose|k: int| 0 <= k < earlier.len() && earlier[k] == kept;
                assert(results[k] == kept);
            }
        }
        assert forall|id: u64|
            latest_by_id(results).dom().contains(id) <==> exists|k: int|
                0 <= k < results.len() && (#[trigger] results[k]).task_id == id by {
            if latest_by_id(results).dom().contains(id) {
                if id == newest.task_id {
                    assert(results[results.len() - 1].task_id == id);
                } else {
                    let k = choose|k: int|
                        0 <= k < earlier.len() && (#[trigger] earlier[k]).task_id == id;
                    assert(results[k].task_id == id);
                }
            }
            if exists|k: int| 0 <= k < results.len() && (#[trigger] results[k]).task_id == id {
                let k = choose|k: int|
                    0 <= k < results.len() && (#[trigger] results[k]).task_id == id;
                if k < earlier.len() {
                    assert(earlier[k].task_id == id);
                }
            }
        }
        assert forall|k: int| #[trigger] is_last_of_its_id(results, k) implies latest_by_id(
            results,
        )[results[k].task_id] == results[k] by {
            if k < earlier.len() {
                assert(results[results.len() - 1].task_id != results[k].task_id);
                assert forall|j: int| k < j < earlier.len() implies (#[trigger] earlier[j]).task_id
                    != earlier[k].task_id by {
                    assert(results[j].task_id != results[k].task_id);
                }
                assert(is_last_of_its_id(earlier, k));
            }
        }
    }
}

/// Two reports of the same results hold the same rows, each once: they
/// differ in the order of the rows at most.
pub proof fn lemma_reports_differ_in_order_only(
    first: Seq<TaskOutputView>,
    second: Seq<TaskOutputView>,
    results: Seq<TaskResultView>,
)
    requires
        is_report_of(first, results),
        is_report_of(second, results),
    ensures
        first.len() == second.len(),
        first.to_set() == second.to_set(),
        first.no_duplicates(),
        second.no_duplicates(),
{
    lemma_report_rows_once(first, second, results);
    lemma_report_rows_once(second, first, results);
    assert(first.to_set() =~= second.to_set());
    row_ids(first).unique_seq_to_set();
    row_ids(second).unique_seq_to_set();
}

/// Every row of one report of some results is a row of any other, and no
/// report holds a row twice.
proof fn lemma_report_rows_once(
    first: Seq<TaskOutputView>,
    second: Seq<TaskOutputView>,
    results: Seq<TaskResultView>,
)
    requires
        is_report_of(first, results),
        is_report_of(second, results),
    ensures
        first.to_set().subset_of(second.to_set()),
        first.no_duplicates(),
{
    assert forall|row: TaskOutputView| first.to_set().contains(row) implies second.to_set().contains(
        row,
    ) by {
        let i = choose|i: int| 0 <= i < first.len() && first[i] == row;
        assert(row_ids(first)[i] == row.task_id);
        assert(row_ids(first).to_set().contains(row.task_id));
        assert(row_ids(second).to_set().contains(row.task_id));
        let j = choose|j: int| 0 <= j < second.len() && row_ids(second)[j] == row.task_id;
        assert(second[j] == row);
    }
    assert forall|i: int, j: int| 0 <= i < first.len() && 0 <= j < first.len() && i != j implies first[i]
        != first[j] by {
        assert(row_ids(first)[i] != row_ids(first)[j]);
    }
}

/// Folds the results by identity, the later over the earlier, and projects
/// each survivor into its report row. The rows come in the order in which the
/// map is walked, which is not fixed.
pub fn aggregate_results(results: &[TaskResult]) -> (rows: Vec<TaskOutput>)
    ensures
        is_report_of(output_views(rows@), result_views(results@)),
{
    let ghost collected = result_views(results@);
    let mut unique = new_map();
    let mut i: usize = 0;
    while i < results.len()
        invariant
            i <= results@.len(),
            collected == result_views(results@),
            kept(unique) == latest_by_id(collected.take(i as int)),
        decreases results@.len() - i,
    {
        let result = &results[i];
        proof {
            let next = collected.take(i + 1);
            assert(next.drop_last() =~= collected.take(i as int));
            assert(next.last() == result@);
        }
        keep(&mut unique, result.task_id, result.clone());
        i += 1;
    }
    proof {
        assert(collected.take(i as int) =~= collected);
    }
    let survivors = kept_values(&unique);
    let ghost latest = latest_by_id(collected);
    let ghost survived = borrowed_views(survivors@);
    let mut rows: Vec<TaskOutput> = Vec::new();
    let mut j: usize = 0;
    while j < survivors.len()
        invariant
            j <= survivors@.len(),
            survived == borrowed_views(survivors@),
            rows@.len() == j,
            forall|k: int| 0 <= k < j ==> (#[trigger] rows@[k])@ == project(survived[k]),
        decreases survivors@.len() - j,
    {
        let survivor: &TaskResult = survivors[j];
        rows.push(TaskOutput::from(survivor.clone()));
        j += 1;
    }
    proof {
        let report = output_views(rows@);
        let keys = choose|keys: Seq<u64>|
            {
                &&& keys.no_duplicates()
                &&& keys.to_set() == latest.dom()
                &&& #[trigger] keys.len() == survived.len()
                &&& forall|i: int| 0 <= i < keys.len() ==> survived[i] == latest[#[trigger] keys[i]]
            };
        lemma_latest_is_last(collected);
        assert forall|i: int| 0 <= i < keys.len() implies #[trigger] row_ids(report)[i]
            == keys[i] by {
            assert(keys.to_set().contains(keys[i]));
            assert(latest.dom().contains(keys[i]));
            assert(report[i] == project(survived[i]));
        }
        assert(row_ids(report) =~= keys);
        assert forall|i: int| 0 <= i < report.len() implies #[trigger] report[i] == project(
            latest[report[i].task_id],
        ) by {
            assert(row_ids(report)[i] == keys[i]);
            assert(report[i] == project(survived[i]));
        }
    }
    rows
}

} // verus!
