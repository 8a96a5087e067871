//! A batch task engine with a verified core.
//!
//! The crate runs nothing by itself: it decides. A driver outside the crate
//! starts the units of work and reports what came back; the types here say
//! what to start next, record every completion exactly once, and fold the
//! collected results into one verdict per task identity.
//!
//! - [`orchestrator`]: the dispatch engine and its two strategies.
//! - [`aggregate`]: the fold by identity, last collected result first.
//! - [`task`]: the data, and the tabular text that submissions are read
//!   from and reports are written to.
//! - [`task_blueprint`]: what the workload of a task decides.
//! - [`guarantees`]: what holds of a whole run.
//! - [`number`]: identities as text.
//! - [`table`]: the calls into the `csv` crate, which are believed and not
//!   proved.

pub mod aggregate;
pub mod guarantees;
pub mod number;
pub mod orchestrator;
pub mod table;
pub mod task;
pub mod task_blueprint;
