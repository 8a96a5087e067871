use task_orchestrator::task_blueprint::{TaskBlueprint, DELAY_SECS, FETCH_TIMEOUT_SECS, FETCH_URL};

#[test]
fn test_fetch_data_success() {
    let result = TaskBlueprint::check_response(200, "200 OK");
    assert!(result.is_ok());
}

#[test]
fn test_fetch_data_failure() {
    let result = TaskBlueprint::check_response(500, "500 Internal Server Error");
    assert!(result.is_err());
}

#[test]
fn failure_carries_the_status() {
    assert_eq!(
        TaskBlueprint::check_response(404, "404 Not Found"),
        Err("HTTP request failed with status: 404 Not Found".to_string())
    );
}

#[test]
fn success_class_is_200_to_299() {
    assert!(TaskBlueprint::check_response(199, "199").is_err());
    assert!(TaskBlueprint::check_response(200, "200").is_ok());
    assert!(TaskBlueprint::check_response(204, "204").is_ok());
    assert!(TaskBlueprint::check_response(299, "299").is_ok());
    assert!(TaskBlueprint::check_response(300, "300").is_err());
    assert!(TaskBlueprint::check_response(0, "0").is_err());
    assert!(TaskBlueprint::check_response(u16::MAX, "65535").is_err());
}

#[test]
fn completion_event_names_the_task() {
    assert_eq!(TaskBlueprint::completion_event(101), "Task 101 completed successfully");
    assert_eq!(TaskBlueprint::completion_event(0), "Task 0 completed successfully");
}

#[test]
fn workload_parameters() {
    assert_eq!(FETCH_URL, "https://httpbin.org/get");
    assert_eq!(FETCH_TIMEOUT_SECS, 10);
    assert_eq!(DELAY_SECS, 5);
}
