use task_orchestrator::orchestrator::{
    Action, Dispatch, DispatchError, Strategy, TaskOrchestrator, QUEUE_CAPACITY,
    STREAMING_THRESHOLD,
};
use task_orchestrator::task::{TaskInput, TaskResult, TaskStatus};

fn task(task_id: u64) -> TaskInput {
    TaskInput { task_id, task_type: "process_data".to_string() }
}

/// Drives a run to its end with an executor that always succeeds. Completions
/// arrive in submission order, or in the reverse of it.
fn drive(mut run: Dispatch, newest_first: bool) -> Vec<TaskResult> {
    let mut running: Vec<usize> = Vec::new();
    loop {
        match run.next_action() {
            Action::Launch { slot, .. } => running.push(slot),
            Action::Collect => {
                let slot = if newest_first { running.pop().unwrap() } else { running.remove(0) };
                run.complete(slot, Ok(())).unwrap();
            }
            Action::Join { .. } => {}
            Action::Done => break,
        }
    }
    run.into_results()
}

#[test]
fn test_orchestrator_multiple_tasks() {
    let orchestrator = TaskOrchestrator::new();
    let tasks = vec![task(101), task(102), task(103)];

    let results = drive(orchestrator.execute_tasks(tasks), true);
    assert_eq!(results.len(), 3);

    let task_ids: Vec<u64> = results.iter().map(|r| r.task_id).collect();
    assert!(task_ids.contains(&101));
    assert!(task_ids.contains(&102));
    assert!(task_ids.contains(&103));
}

#[test]
fn test_orchestrator_duplicate_task_ids() {
    let orchestrator = TaskOrchestrator::new();
    let tasks = vec![task(101), task(101)];

    let results = drive(orchestrator.execute_tasks(tasks), false);

    assert_eq!(results.len(), 2);
    assert!(results.iter().all(|r| r.task_id == 101));
}

#[test]
fn test_orchestrator_streaming_variant() {
    let orchestrator = TaskOrchestrator::new();
    let tasks = vec![task(201), task(202)];

    let results = drive(orchestrator.execute_tasks_streaming(tasks), true);
    assert_eq!(results.len(), 2);

    let task_ids: Vec<u64> = results.iter().map(|r| r.task_id).collect();
    assert!(task_ids.contains(&201));
    assert!(task_ids.contains(&202));
}

#[test]
fn bounded_queue_run_step_by_step() {
    let mut run = TaskOrchestrator::new().execute_tasks(vec![task(7), task(8)]);
    assert_eq!(run.strategy(), Strategy::BoundedQueue);
    assert_eq!(run.queue_capacity(), Some(1000));
    assert!(!run.is_complete());

    assert_eq!(run.next_action(), Action::Launch { slot: 0, task_id: 7 });
    assert_eq!(run.next_action(), Action::Launch { slot: 1, task_id: 8 });
    assert_eq!(run.next_action(), Action::Collect);
    assert_eq!(run.next_action(), Action::Collect);

    assert_eq!(run.complete(1, Err("late".to_string())), Ok(()));
    assert_eq!(run.next_action(), Action::Collect);
    assert_eq!(run.complete(0, Ok(())), Ok(()));
    assert!(run.is_complete());

    assert_eq!(run.next_action(), Action::Join { slot: 0 });
    assert_eq!(run.next_action(), Action::Join { slot: 1 });
    assert_eq!(run.next_action(), Action::Done);
    assert_eq!(run.next_action(), Action::Done);

    let results = run.into_results();
    assert_eq!(results.len(), 2);
    assert_eq!(results[0].task_id, 8);
    assert_eq!(results[0].status, TaskStatus::Failed);
    assert_eq!(results[0].error_info, Some("late".to_string()));
    assert_eq!(results[1].task_id, 7);
    assert_eq!(results[1].status, TaskStatus::Completed);
    assert_eq!(results[1].error_info, None);
}

#[test]
fn unordered_pool_run_has_no_join_and_no_queue() {
    let mut run = TaskOrchestrator::new().execute_tasks_streaming(vec![task(7)]);
    assert_eq!(run.strategy(), Strategy::UnorderedPool);
    assert_eq!(run.queue_capacity(), None);
    assert_eq!(run.next_action(), Action::Launch { slot: 0, task_id: 7 });
    assert_eq!(run.next_action(), Action::Collect);
    assert_eq!(run.complete(0, Ok(())), Ok(()));
    assert_eq!(run.next_action(), Action::Done);
    assert_eq!(run.into_results().len(), 1);
}

#[test]
fn completion_for_unknown_slot_is_turned_away() {
    let mut run = TaskOrchestrator::new().execute_tasks(vec![task(1)]);
    assert_eq!(run.next_action(), Action::Launch { slot: 0, task_id: 1 });
    assert_eq!(run.complete(1, Ok(())), Err(DispatchError::UnknownSlot));
    assert_eq!(run.complete(usize::MAX, Ok(())), Err(DispatchError::UnknownSlot));
    assert!(!run.is_complete());
    assert_eq!(run.into_results().len(), 0);
}

#[test]
fn completion_is_taken_once_per_started_slot() {
    let mut run = TaskOrchestrator::new().execute_tasks(vec![task(1), task(2)]);
    assert_eq!(run.complete(0, Ok(())), Err(DispatchError::NotRunning));
    assert_eq!(run.next_action(), Action::Launch { slot: 0, task_id: 1 });
    assert_eq!(run.complete(1, Ok(())), Err(DispatchError::NotRunning));
    assert_eq!(run.complete(0, Ok(())), Ok(()));
    assert_eq!(run.complete(0, Err("again".to_string())), Err(DispatchError::NotRunning));
    let results = run.into_results();
    assert_eq!(results.len(), 1);
    assert_eq!(results[0].status, TaskStatus::Completed);
}

#[test]
fn early_completion_is_taken_while_launching() {
    let mut run = TaskOrchestrator::new().execute_tasks(vec![task(1), task(2)]);
    assert_eq!(run.next_action(), Action::Launch { slot: 0, task_id: 1 });
    assert_eq!(run.complete(0, Ok(())), Ok(()));
    assert_eq!(run.next_action(), Action::Launch { slot: 1, task_id: 2 });
    assert_eq!(run.next_action(), Action::Collect);
    assert_eq!(run.complete(1, Ok(())), Ok(()));
    assert_eq!(run.next_action(), Action::Join { slot: 0 });
}

#[test]
fn empty_batch_is_done_at_once() {
    let mut bounded = TaskOrchestrator::new().execute_tasks(Vec::new());
    assert!(bounded.is_complete());
    assert_eq!(bounded.next_action(), Action::Done);
    assert!(bounded.into_results().is_empty());

    let mut pool = TaskOrchestrator::new().execute_tasks_streaming(Vec::new());
    assert_eq!(pool.next_action(), Action::Done);
    assert!(pool.into_results().is_empty());
}

#[test]
fn strategy_follows_the_threshold() {
    assert_eq!(QUEUE_CAPACITY, 1000);
    assert_eq!(STREAMING_THRESHOLD, 1000);
    let at_threshold: Vec<TaskInput> = (0..1000).map(task).collect();
    let above: Vec<TaskInput> = (0..1001).map(task).collect();
    assert_eq!(TaskOrchestrator::new().dispatch(at_threshold).strategy(), Strategy::BoundedQueue);
    assert_eq!(TaskOrchestrator::new().dispatch(above).strategy(), Strategy::UnorderedPool);
    assert_eq!(TaskOrchestrator::default().dispatch(Vec::new()).strategy(), Strategy::BoundedQueue);
    assert_eq!(TaskOrchestrator::new().threshold, 1000);
    assert_eq!(TaskOrchestrator::default(), TaskOrchestrator::new());
}

#[test]
fn threshold_can_be_chosen() {
    let small = TaskOrchestrator::with_threshold(2);
    assert_eq!(small.threshold, 2);
    assert_eq!(small.dispatch(vec![task(1), task(2)]).strategy(), Strategy::BoundedQueue);
    assert_eq!(small.dispatch(vec![task(1), task(2), task(3)]).strategy(), Strategy::UnorderedPool);
    assert_eq!(
        TaskOrchestrator::with_threshold(0).dispatch(Vec::new()).strategy(),
        Strategy::BoundedQueue
    );
}

#[test]
fn single_attempt_becomes_data() {
    let done = TaskOrchestrator::execute_single_task(5, Ok(()));
    assert_eq!(done.task_id, 5);
    assert_eq!(done.status, TaskStatus::Completed);
    assert_eq!(done.error_info, None);

    let failed = TaskOrchestrator::execute_single_task(6, Err("boom".to_string()));
    assert_eq!(failed.task_id, 6);
    assert_eq!(failed.status, TaskStatus::Failed);
    assert_eq!(failed.error_info, Some("boom".to_string()));
}
