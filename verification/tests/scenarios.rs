use std::collections::BTreeSet;
use task_orchestrator::orchestrator::{Action, Dispatch, Strategy, TaskOrchestrator};
use task_orchestrator::task::{
    read_tasks_from_csv, write_results_to_csv, TaskInput, TaskResult, TaskStatus,
};

fn task(task_id: u64) -> TaskInput {
    TaskInput { task_id, task_type: "process_data".to_string() }
}

/// A deterministic executor: identities divisible by three fail.
fn stub(task_id: u64) -> Result<(), String> {
    if task_id % 3 == 0 {
        Err(format!("task {} refused", task_id))
    } else {
        Ok(())
    }
}

/// Drives a run to its end. The unit that completes next is picked by
/// stepping through the running ones with the given stride.
fn drive(mut run: Dispatch, executor: fn(u64) -> Result<(), String>, stride: usize) -> Vec<TaskResult> {
    let mut running: Vec<(usize, u64)> = Vec::new();
    let mut joined: Vec<usize> = Vec::new();
    let mut turn: usize = 0;
    loop {
        match run.next_action() {
            Action::Launch { slot, task_id } => running.push((slot, task_id)),
            Action::Collect => {
                turn = (turn + stride) % running.len();
                let (slot, task_id) = running.remove(turn);
                run.complete(slot, executor(task_id)).unwrap();
            }
            Action::Join { slot } => joined.push(slot),
            Action::Done => break,
        }
    }
    if run.strategy() == Strategy::BoundedQueue {
        let expected: Vec<usize> = (0..joined.len()).collect();
        assert_eq!(joined, expected);
    } else {
        assert!(joined.is_empty());
    }
    assert!(run.is_complete());
    run.into_results()
}

fn always_ok(_task_id: u64) -> Result<(), String> {
    Ok(())
}

fn always_boom(_task_id: u64) -> Result<(), String> {
    Err("boom".to_string())
}

fn data_lines(output: &str) -> Vec<&str> {
    output.lines().skip(1).filter(|line| !line.is_empty()).collect()
}

#[test]
fn test_integration_flow() {
    let csv_content = "task_id,task_type\n101,process_data\n102,process_data\n";

    let tasks = read_tasks_from_csv(csv_content).unwrap();
    assert_eq!(tasks.len(), 2);

    let orchestrator = TaskOrchestrator::new();
    let results = drive(orchestrator.execute_tasks(tasks), always_ok, 0);
    assert_eq!(results.len(), 2);

    let output = write_results_to_csv(&results).unwrap();
    assert!(output.contains("task_id,final_status,error_info"));
    assert!(output.contains("101,"));
    assert!(output.contains("102,"));
}

#[test]
fn two_tasks_that_succeed() {
    let results = drive(TaskOrchestrator::new().dispatch(vec![task(101), task(102)]), always_ok, 1);
    let output = write_results_to_csv(&results).unwrap();
    let mut lines = data_lines(&output);
    lines.sort();
    assert_eq!(lines, vec!["101,Completed,", "102,Completed,"]);
}

#[test]
fn one_task_that_fails_with_boom() {
    let results = drive(TaskOrchestrator::new().dispatch(vec![task(201)]), always_boom, 0);
    let output = write_results_to_csv(&results).unwrap();
    assert_eq!(output, "task_id,final_status,error_info\n201,Failed,boom\n");
}

#[test]
fn same_identity_twice_gives_one_row() {
    let tasks = read_tasks_from_csv("task_id,task_type\n101,process_data\n101,process_data\n")
        .unwrap();
    let results = drive(TaskOrchestrator::new().dispatch(tasks), always_ok, 0);
    assert_eq!(results.len(), 2);
    let output = write_results_to_csv(&results).unwrap();
    assert_eq!(data_lines(&output), vec!["101,Completed,"]);
}

#[test]
fn large_batch_runs_over_the_pool() {
    let tasks: Vec<TaskInput> = (1..=1500).map(task).collect();
    let run = TaskOrchestrator::new().dispatch(tasks);
    assert_eq!(run.strategy(), Strategy::UnorderedPool);
    let results = drive(run, stub, 7);
    assert_eq!(results.len(), 1500);
    assert!(results
        .iter()
        .all(|r| r.status == TaskStatus::Completed || r.status == TaskStatus::Failed));
    let ids: BTreeSet<u64> = results.iter().map(|r| r.task_id).collect();
    assert_eq!(ids.len(), 1500);

    let output = write_results_to_csv(&results).unwrap();
    let lines = data_lines(&output);
    assert_eq!(lines.len(), 1500);
    assert!(lines.iter().all(|line| {
        let status = line.split(',').nth(1).unwrap();
        status == "Completed" || status == "Failed"
    }));
}

#[test]
fn header_only_in_header_only_out() {
    let tasks = read_tasks_from_csv("task_id,task_type\n").unwrap();
    assert!(tasks.is_empty());
    let results = drive(TaskOrchestrator::new().dispatch(tasks), always_ok, 0);
    assert!(results.is_empty());
    assert_eq!(write_results_to_csv(&results).unwrap(), "task_id,final_status,error_info\n");
}

#[test]
fn distinct_identities_keep_every_row() {
    let tasks: Vec<TaskInput> = (1..=40).map(task).collect();
    let results = drive(TaskOrchestrator::new().dispatch(tasks), stub, 3);
    let output = write_results_to_csv(&results).unwrap();
    let lines = data_lines(&output);
    assert_eq!(lines.len(), 40);
    for line in lines {
        let status = line.split(',').nth(1).unwrap();
        assert!(status == "Completed" || status == "Failed");
        assert!(status != "Pending" && status != "Running");
    }
}

#[test]
fn duplicates_collapse_to_one_row_per_identity() {
    let tasks: Vec<TaskInput> = [5u64, 6, 5, 7, 6, 5].iter().map(|id| task(*id)).collect();
    let results = drive(TaskOrchestrator::new().dispatch(tasks), stub, 2);
    assert_eq!(results.len(), 6);
    let output = write_results_to_csv(&results).unwrap();
    let mut lines = data_lines(&output);
    lines.sort();
    assert_eq!(lines, vec!["5,Completed,", "6,Failed,task 6 refused", "7,Completed,"]);
}

#[test]
fn transient_status_is_reported_as_failed() {
    let results = vec![
        TaskResult { task_id: 1, status: TaskStatus::Pending, error_info: None },
        TaskResult { task_id: 2, status: TaskStatus::Running, error_info: None },
    ];
    let output = write_results_to_csv(&results).unwrap();
    let mut lines = data_lines(&output);
    lines.sort();
    assert_eq!(lines, vec!["1,Failed,", "2,Failed,"]);
    assert!(!output.contains("Pending"));
    assert!(!output.contains("Running"));
}

#[test]
fn both_strategies_give_the_same_verdicts() {
    let ids: Vec<u64> = (1..=60).map(|n| n % 25).collect();
    let bounded = drive(
        TaskOrchestrator::new().execute_tasks(ids.iter().map(|id| task(*id)).collect()),
        stub,
        1,
    );
    let pool = drive(
        TaskOrchestrator::new().execute_tasks_streaming(ids.iter().map(|id| task(*id)).collect()),
        stub,
        11,
    );
    let order_differs = bounded.iter().zip(pool.iter()).any(|(a, b)| a.task_id != b.task_id);
    assert!(order_differs);

    let pairs = |results: &Vec<TaskResult>| -> BTreeSet<(u64, bool)> {
        results.iter().map(|r| (r.task_id, r.status == TaskStatus::Completed)).collect()
    };
    assert_eq!(pairs(&bounded), pairs(&pool));

    let rows = |results: &Vec<TaskResult>| -> BTreeSet<String> {
        let output = write_results_to_csv(results).unwrap();
        data_lines(&output).iter().map(|line| line.to_string()).collect()
    };
    assert_eq!(rows(&bounded), rows(&pool));
    assert_eq!(rows(&bounded).len(), 25);
}
