//! The workload of one task, as far as it decides anything: where to fetch,
//! how long to wait, which answer counts as success, and what to report.
//!
//! The fetch, the wait and the emission themselves are the driver's work.

use crate::number::{decimal, push_decimal};
use vstd::prelude::*;
use vstd::string::*;

verus! {

/// Where the workload fetches from.
pub const FETCH_URL: &'static str = "https://httpbin.org/get";

/// How many seconds the fetch may take.
pub const FETCH_TIMEOUT_SECS: u64 = 10;

/// How many seconds the workload waits after the fetch.
pub const DELAY_SECS: u64 = 5;

/// The workload that every task runs.
#[derive(Debug, Clone, Copy)]
pub struct TaskBlueprint;

/// A status code of the success class: 200 to 299.
pub open spec fn is_success(status_code: u16) -> bool {
    200 <= status_code < 300
}

/// The description of a fetch that was answered with a status outside the
/// success class.
pub open spec fn failure_message(status_text: Seq<char>) -> Seq<char> {
    "HTTP request failed with status: "@ + status_text
}

/// The event that a task emits once its work is done.
pub open spec fn completion_message(task_id: u64) -> Seq<char> {
    "Task "@ + decimal(task_id as nat) + " completed successfully"@
}

impl TaskBlueprint {
    /// Judges the answer to the fetch: a status of the success class passes,
    /// any other fails the task with a description that carries the status as
    /// the server gave it.
    pub fn check_response(status_code: u16, status_text: &str) -> (verdict: Result<(), String>)
        ensures
            verdict is Ok <==> is_success(status_code),
            verdict matches Err(message) ==> message@ == failure_message(status_text@),
    {
        if 200 <= status_code && status_code < 300 {
            Ok(())
        } else {
            let mut message = "HTTP request failed with status: ".to_string();
            message.append(status_text);
            Err(message)
        }
    }

    /// The text of the event that the task with this identity emits.
    pub fn completion_event(task_id: u64) -> (message: String)
        ensures
            message@ == completion_message(task_id),
    {
        let mut message = "Task ".to_string();
        push_decimal(&mut message, task_id);
        message.append(" completed successfully");
        message
    }
}

} // verus!
