//! The dispatch engine: which unit to start next, which completion to accept,
//! and when a run is over.
//!
//! The engine does no waiting of its own. A driver asks [`Dispatch::next_action`]
//! what to do, does it, and reports each completion with [`Dispatch::complete`].
//! Whatever order the completions arrive in, every submission ends with exactly
//! one result.

use crate::task::{input_views, result_views, TaskInput, TaskInputView, TaskResult, TaskResultView,
    TaskStatus};
use vstd::prelude::*;
use vstd::set_lib::{lemma_int_range, lemma_len_subset, lemma_subset_equality, set_int_range};

verus! {

/// How many uncollected results the bounded completion queue holds.
pub const QUEUE_CAPACITY: usize = 1000;

/// The largest batch that runs over the bounded queue unless the
/// orchestrator is told another threshold.
pub const STREAMING_THRESHOLD: usize = 1000;

/// The two ways of fanning a batch out and its results back in.
#[derive(Debug, Clone, Copy, PartialEq, Eq, Structural)]
pub enum Strategy {
    /// One unit per task, each handing its result to a queue of
    /// [`QUEUE_CAPACITY`] entries that a single collector drains; every unit
    /// is waited for before the run ends.
    BoundedQueue,
    /// All units in one pending set that the collector polls directly.
    UnorderedPool,
}

/// What the driver is to do next.
#[derive(Debug, Clone, Copy, PartialEq, Eq, Structural)]
pub enum Action {
    /// Start the unit for the submission at `slot`, which runs `task_id`.
    Launch { slot: usize, task_id: u64 },
    /// Wait for the next unit to finish and report it with
    /// [`Dispatch::complete`].
    Collect,
    /// Wait until the unit started for `slot` has ended.
    Join { slot: usize },
    /// The run is over.
    Done,
}

/// Why a completion was turned away.
#[derive(Debug, Clone, Copy, PartialEq, Eq, Structural)]
pub enum DispatchError {
    /// The slot names no submission of this run.
    UnknownSlot,
    /// The unit of this slot is not running: it was never started, or its
    /// completion was recorded before.
    NotRunning,
}

/// The result that one execution attempt is recorded as: `Completed` without
/// error text when the executor succeeded, `Failed` with the executor's
/// description when it did not.
pub open spec fn attempt_result(task_id: u64, outcome: Result<(), String>) -> TaskResultView {
    match outcome {
        Ok(_) => TaskResultView { task_id, status: TaskStatus::Completed, error_info: None },
        Err(message) => TaskResultView {
            task_id,
            status: TaskStatus::Failed,
            error_info: Some(message@),
        },
    }
}

/// The strategy that a batch of `task_count` submissions runs under: the
/// unordered pool once the batch is larger than the threshold.
pub open spec fn strategy_for(task_count: nat, threshold: usize) -> Strategy {
    if task_count > threshold {
        Strategy::UnorderedPool
    } else {
        Strategy::BoundedQueue
    }
}

/// `results` holds one terminal result for each submission of `tasks`, and
/// `arrivals` names the slot that each came from: every slot once, in the
/// order of arrival, which need not be the order of submission.
pub open spec fn is_arrival_order(
    arrivals: Seq<int>,
    results: Seq<TaskResultView>,
    tasks: Seq<TaskInputView>,
) -> bool {
    &&& arrivals.len() == results.len()
    &&& results.len() == tasks.len()
    &&& arrivals.no_duplicates()
    &&& forall|k: int|
        0 <= k < arrivals.len() ==> {
            &&& 0 <= #[trigger] arrivals[k] < tasks.len()
            &&& results[k].task_id == tasks[arrivals[k]].task_id
            &&& results[k].status.is_terminal()
        }
}

/// `results` is what a finished run over `tasks` collected, in some order of
/// arrival.
pub open spec fn collected_from(results: Seq<TaskResultView>, tasks: Seq<TaskInputView>) -> bool {
    exists|arrivals: Seq<int>| is_arrival_order(arrivals, results, tasks)
}

/// Mathematical state of a run.
pub struct DispatchView {
    pub strategy: Strategy,
    /// The submissions, in submission order. A position in it is a slot.
    pub tasks: Seq<TaskInputView>,
    /// The status of each slot.
    pub status: Seq<TaskStatus>,
    /// Slots below this number have been handed out for launch.
    pub launched: nat,
    /// Slots below this number have been handed out for joining.
    pub joined: nat,
    /// The collected results, in arrival order.
    pub results: Seq<TaskResultView>,
    /// The slot that each collected result came from.
    pub arrivals: Seq<int>,
}

impl DispatchView {
    /// The state before anything was started.
    pub open spec fn init(strategy: Strategy, tasks: Seq<TaskInputView>) -> DispatchView {
        DispatchView {
            strategy,
            tasks,
            status: Seq::new(tasks.len(), |i: int| TaskStatus::Pending),
            launched: 0,
            joined: 0,
            results: Seq::empty(),
            arrivals: Seq::empty(),
        }
    }

    /// The `k`-th collected result is the terminal result of the slot it
    /// arrived from.
    pub open spec fn recorded(self, k: int) -> bool {
        let slot = self.arrivals[k];
        &&& 0 <= slot < self.tasks.len()
        &&& self.results[k].task_id == self.tasks[slot].task_id
        &&& self.results[k].status == self.status[slot]
        &&& self.results[k].status.is_terminal()
        &&& self.results[k].status == TaskStatus::Completed ==> self.results[k].error_info is None
        &&& self.results[k].status == TaskStatus::Failed ==> self.results[k].error_info is Some
    }

    /// The invariant of a run: slots leave `Pending` in submission order, no
    /// slot has two results, and every result belongs to a finished slot.
    pub open spec fn wf(self) -> bool {
        &&& self.status.len() == self.tasks.len()
        &&& self.launched <= self.tasks.len()
        &&& self.joined <= self.tasks.len()
        &&& forall|i: int|
            0 <= i < self.tasks.len() ==> (#[trigger] self.status[i] == TaskStatus::Pending <==> i
                >= self.launched)
        &&& self.arrivals.len() == self.results.len()
        &&& self.arrivals.no_duplicates()
        &&& forall|k: int| 0 <= k < self.arrivals.len() ==> #[trigger] self.recorded(k)
        &&& forall|i: int|
            0 <= i < self.tasks.len() && (#[trigger] self.status[i]).is_terminal()
                ==> self.arrivals.contains(i)
        &&& self.joined > 0 ==> self.strategy == Strategy::BoundedQueue && self.results.len()
            == self.tasks.len()
    }

    /// No more results are collected than there are submissions, and once
    /// there are as many, every slot has its result.
    pub proof fn lemma_collected_bounded(self)
        requires
            self.wf(),
        ensures
            self.results.len() <= self.tasks.len(),
            self.results.len() == self.tasks.len() ==> forall|i: int|
                0 <= i < self.tasks.len() ==> self.arrivals.contains(i) && (
                #[trigger] self.status[i]).is_terminal(),
    {
        assert forall|k: int| 0 <= k < self.arrivals.len() implies 0 <= #[trigger] self.arrivals[k]
            < self.tasks.len() by {
            assert(self.recorded(k));
        }
        lemma_distinct_slots(self.arrivals, self.tasks.len());
        if self.results.len() == self.tasks.len() {
            assert forall|i: int| 0 <= i < self.tasks.len() implies self.arrivals.contains(i) && (
            #[trigger] self.status[i]).is_terminal() by {
                assert(self.arrivals.contains(i));
                let k = choose|k: int| 0 <= k < self.arrivals.len() && self.arrivals[k] == i;
                assert(self.recorded(k));
            }
        }
    }

    /// Every submission has its result.
    pub open spec fn is_complete(self) -> bool {
        self.results.len() == self.tasks.len()
    }

    /// A complete run has collected exactly one terminal result for each
    /// submission, duplicates of an identity included.
    pub proof fn lemma_complete_run(self)
        requires
            self.wf(),
            self.is_complete(),
        ensures
            is_arrival_order(self.arrivals, self.results, self.tasks),
            collected_from(self.results, self.tasks),
    {
        assert forall|k: int| 0 <= k < self.arrivals.len() implies {
            &&& 0 <= #[trigger] self.arrivals[k] < self.tasks.len()
            &&& self.results[k].task_id == self.tasks[self.arrivals[k]].task_id
            &&& self.results[k].status.is_terminal()
        } by {
            assert(self.recorded(k));
        }
        assert(is_arrival_order(self.arrivals, self.results, self.tasks));
    }

    /// The steps that are left: launches, collections and, under the bounded
    /// queue, joins.
    pub open spec fn steps_left(self) -> int {
        (self.tasks.len() - self.launched) + (self.tasks.len() - self.results.len()) + if self.strategy
            == Strategy::BoundedQueue {
            self.tasks.len() - self.joined
        } else {
            0
        }
    }

    /// A run ends: every launch, every join and every completion that is
    /// taken leaves one step less, no state has fewer than none left, and the
    /// run is `Done` exactly when none is left.
    pub proof fn lemma_progress(self, slot: int, result: TaskResultView)
        requires
            self.wf(),
        ensures
            self.steps_left() >= 0,
            self.next_action() == Action::Done <==> self.steps_left() == 0,
            self.next_action() is Launch || self.next_action() is Join
                ==> self.after_action().steps_left() == self.steps_left() - 1,
            self.admits(slot) is Ok ==> self.after_completion(slot, result).steps_left()
                == self.steps_left() - 1,
    {
        self.lemma_collected_bounded();
    }

    /// What the driver is told in this state.
    pub open spec fn next_action(self) -> Action {
        if self.launched < self.tasks.len() {
            Action::Launch {
                slot: self.launched as usize,
                task_id: self.tasks[self.launched as int].task_id,
            }
        } else if self.results.len() < self.tasks.len() {
            Action::Collect
        } else if self.strategy == Strategy::BoundedQueue && self.joined < self.tasks.len() {
            Action::Join { slot: self.joined as usize }
        } else {
            Action::Done
        }
    }

    /// The state once the driver has been told [`Self::next_action`].
    pub open spec fn after_action(self) -> DispatchView {
        match self.next_action() {
            Action::Launch { slot, task_id } => DispatchView {
                status: self.status.update(slot as int, TaskStatus::Running),
                launched: self.launched + 1,
                ..self
            },
            Action::Join { slot } => DispatchView { joined: self.joined + 1, ..self },
            _ => self,
        }
    }

    /// Whether a completion for `slot` is taken in this state, or why not.
    pub open spec fn admits(self, slot: int) -> Result<(), DispatchError> {
        if !(0 <= slot < self.tasks.len()) {
            Err(DispatchError::UnknownSlot)
        } else if self.status[slot] != TaskStatus::Running {
            Err(DispatchError::NotRunning)
        } else {
            Ok(())
        }
    }

    /// The state once `result` has been collected from `slot`.
    pub open spec fn after_completion(self, slot: int, result: TaskResultView) -> DispatchView {
        DispatchView {
            status: self.status.update(slot, result.status),
            results: self.results.push(result),
            arrivals: self.arrivals.push(slot),
            ..self
        }
    }
}

/// A list of distinct slots of a batch is no longer than the batch, and one
/// as long as the batch holds every slot.
pub proof fn lemma_distinct_slots(slots: Seq<int>, count: nat)
    requires
        slots.no_duplicates(),
        forall|k: int| 0 <= k < slots.len() ==> 0 <= #[trigger] slots[k] < count,
    ensures
        slots.len() <= count,
        slots.len() == count ==> forall|i: int| 0 <= i < count ==> slots.contains(i),
{
    let all = set_int_range(0, count as int);
    slots.unique_seq_to_set();
    lemma_int_range(0, count as int);
    assert(slots.to_set().subset_of(all));
    lemma_len_subset(slots.to_set(), all);
    if slots.len() == count {
        lemma_subset_equality(slots.to_set(), all);
        assert forall|i: int| 0 <= i < count implies slots.contains(i) by {
            assert(all.contains(i));
            assert(slots.to_set().contains(i));
        }
    }
}

/// The front door of the engine. Its one setting is the batch size above
/// which a run goes over the unordered pool.
#[derive(Debug, Clone, Copy, PartialEq, Eq, Structural)]
pub struct TaskOrchestrator {
    pub threshold: usize,
}

/// One run over a batch of submissions.
pub struct Dispatch {
    strategy: Strategy,
    tasks: Vec<TaskInput>,
    status: Vec<TaskStatus>,
    launched: usize,
    joined: usize,
    results: Vec<TaskResult>,
    arrivals: Ghost<Seq<int>>,
}

impl View for Dispatch {
    type V = DispatchView;

    closed spec fn view(&self) -> DispatchView {
        DispatchView {
            strategy: self.strategy,
            tasks: input_views(self.tasks@),
            status: self.status@,
            launched: self.launched as nat,
            joined: self.joined as nat,
            results: result_views(self.results@),
            arrivals: self.arrivals@,
        }
    }
}

impl TaskOrchestrator {
    /// An orchestrator with the threshold [`STREAMING_THRESHOLD`]. It holds
    /// no state of a run: every run is a [`Dispatch`] of its own.
    pub fn new() -> (orchestrator: Self)
        ensures
            orchestrator.threshold == STREAMING_THRESHOLD,
    {
        TaskOrchestrator { threshold: STREAMING_THRESHOLD }
    }

    /// An orchestrator with a threshold of the caller's choice.
    pub fn with_threshold(threshold: usize) -> (orchestrator: Self)
        ensures
            orchestrator.threshold == threshold,
    {
        TaskOrchestrator { threshold }
    }

    /// Records one execution attempt: the executor's outcome for `task_id`
    /// becomes data, whatever it was.
    pub fn execute_single_task(task_id: u64, outcome: Result<(), String>) -> (result: TaskResult)
        ensures
            result@ == attempt_result(task_id, outcome),
    {
        let mut result = TaskResult { task_id, status: TaskStatus::Running, error_info: None };
        match outcome {
            Ok(()) => {
                result.status = TaskStatus::Completed;
            },
            Err(message) => {
                result.status = TaskStatus::Failed;
                result.error_info = Some(message);
            },
        }
        result
    }

    /// A run of `tasks` under `strategy`, with nothing started yet.
    fn start(strategy: Strategy, tasks: Vec<TaskInput>) -> (run: Dispatch)
        ensures
            run@ == DispatchView::init(strategy, input_views(tasks@)),
            run@.wf(),
    {
        let count = tasks.len();
        let mut status: Vec<TaskStatus> = Vec::new();
        let mut i: usize = 0;
        while i < count
            invariant
                i <= count,
                status@.len() == i,
                forall|j: int| 0 <= j < i ==> status@[j] == TaskStatus::Pending,
            decreases count - i,
        {
            status.push(TaskStatus::Pending);
            i += 1;
        }
        let run = Dispatch {
            strategy,
            tasks,
            status,
            launched: 0,
            joined: 0,
            results: Vec::new(),
            arrivals: Ghost(Seq::empty()),
        };
        proof {
            assert(run@.status =~= Seq::new(run@.tasks.len(), |i: int| TaskStatus::Pending));
            assert(run@.results =~= Seq::empty());
        }
        run
    }

    /// Begins a run over the bounded completion queue, whatever the size of
    /// the batch.
    pub fn execute_tasks(self, tasks: Vec<TaskInput>) -> (run: Dispatch)
        ensures
            run@ == DispatchView::init(Strategy::BoundedQueue, input_views(tasks@)),
            run@.wf(),
    {
        Self::start(Strategy::BoundedQueue, tasks)
    }

    /// Begins a run over the unordered pool, whatever the size of the batch.
    pub fn execute_tasks_streaming(self, tasks: Vec<TaskInput>) -> (run: Dispatch)
        ensures
            run@ == DispatchView::init(Strategy::UnorderedPool, input_views(tasks@)),
            run@.wf(),
    {
        Self::start(Strategy::UnorderedPool, tasks)
    }

    /// Begins a run under the strategy that fits the size of the batch: the
    /// unordered pool for more submissions than the threshold, the bounded
    /// queue otherwise.
    pub fn dispatch(self, tasks: Vec<TaskInput>) -> (run: Dispatch)
        ensures
            run@ == DispatchView::init(
                strategy_for(tasks@.len(), self.threshold),
                input_views(tasks@),
            ),
            run@.wf(),
    {
        if tasks.len() > self.threshold {
            self.execute_tasks_streaming(tasks)
        } else {
            self.execute_tasks(tasks)
        }
    }
}

impl Default for TaskOrchestrator {
    fn default() -> (orchestrator: Self)
        ensures
            orchestrator.threshold == STREAMING_THRESHOLD,
    {
        Self::new()
    }
}

impl Dispatch {
    /// The strategy of this run.
    pub fn strategy(&self) -> (strategy: Strategy)
        ensures
            strategy == self@.strategy,
    {
        self.strategy
    }

    /// The capacity that the completion queue of this run is to have: that of
    /// the bounded queue, or none under the unordered pool, which has no
    /// queue.
    pub fn queue_capacity(&self) -> (capacity: Option<usize>)
        ensures
            capacity == if self@.strategy == Strategy::BoundedQueue {
                Some(QUEUE_CAPACITY)
            } else {
                None
            },
    {
        match self.strategy {
            Strategy::BoundedQueue => Some(QUEUE_CAPACITY),
            Strategy::UnorderedPool => None,
        }
    }

    /// Whether every submission has its result.
    pub fn is_complete(&self) -> (complete: bool)
        ensures
            complete == self@.is_complete(),
    {
        self.results.len() == self.tasks.len()
    }

    /// Ends the run and hands out what was collected, in the order of
    /// arrival. Of a complete run that is one terminal result for each
    /// submission.
    pub fn into_results(self) -> (results: Vec<TaskResult>)
        requires
            self@.wf(),
        ensures
            result_views(results@) == self@.results,
            self@.is_complete() ==> collected_from(result_views(results@), self@.tasks),
    {
        proof {
            if self@.is_complete() {
                self@.lemma_complete_run();
            }
        }
        self.results
    }

    /// Tells the driver what to do next, and counts it as done: a launch
    /// marks the slot as running, a join as waited for. Submissions are
    /// launched in submission order; collecting goes on until every
    /// submission has its result; under the bounded queue every unit is then
    /// joined, in submission order, before the run is `Done`.
    pub fn next_action(&mut self) -> (action: Action)
        requires
            old(self)@.wf(),
        ensures
            action == old(self)@.next_action(),
            final(self)@ == old(self)@.after_action(),
            final(self)@.wf(),
    {
        let count = self.tasks.len();
        if self.launched < count {
            let slot = self.launched;
            let task_id = self.tasks[slot].task_id;
            self.status.set(slot, TaskStatus::Running);
            self.launched = slot + 1;
            proof {
                let before = old(self)@;
                let after = self@;
                assert(after.status =~= before.status.update(slot as int, TaskStatus::Running));
                assert(after == before.after_action());
                assert forall|k: int| 0 <= k < after.arrivals.len() implies #[trigger] after.recorded(
                    k,
                ) by {
                    assert(before.recorded(k));
                }
            }
            Action::Launch { slot, task_id }
        } else if self.results.len() < count {
            Action::Collect
        } else if self.strategy == Strategy::BoundedQueue && self.joined < count {
            let slot = self.joined;
            self.joined = slot + 1;
            proof {
                let before = old(self)@;
                let after = self@;
                before.lemma_collected_bounded();
                assert(after == before.after_action());
                assert forall|k: int| 0 <= k < after.arrivals.len() implies #[trigger] after.recorded(
                    k,
                ) by {
                    assert(before.recorded(k));
                }
            }
            Action::Join { slot }
        } else {
            Action::Done
        }
    }

    /// Takes the executor's outcome for the unit started for `slot` and
    /// records it as the next result. A completion is taken once per started
    /// slot; any other is turned away and changes nothing.
    pub fn complete(&mut self, slot: usize, outcome: Result<(), String>) -> (taken: Result<
        (),
        DispatchError,
    >)
        requires
            old(self)@.wf(),
        ensures
            taken == old(self)@.admits(slot as int),
            taken is Ok ==> final(self)@ == old(self)@.after_completion(
                slot as int,
                attempt_result(old(self)@.tasks[slot as int].task_id, outcome),
            ),
            taken is Err ==> final(self)@ == old(self)@,
            final(self)@.wf(),
    {
        if slot >= self.tasks.len() {
            return Err(DispatchError::UnknownSlot);
        }
        if self.status[slot] != TaskStatus::Running {
            return Err(DispatchError::NotRunning);
        }
        let result = TaskOrchestrator::execute_single_task(self.tasks[slot].task_id, outcome);
        self.status.set(slot, result.status);
        self.results.push(result);
        self.arrivals = Ghost(self.arrivals@.push(slot as int));
        proof {
            let before = old(self)@;
            let after = self@;
            let recorded = attempt_result(before.tasks[slot as int].task_id, outcome);
            before.lemma_collected_bounded();
            assert(after.results =~= before.results.push(recorded));
            assert(after.status =~= before.status.update(slot as int, recorded.status));
            assert(after == before.after_completion(slot as int, recorded));
            assert(!before.arrivals.contains(slot as int)) by {
                if before.arrivals.contains(slot as int) {
                    let k = choose|k: int|
                        0 <= k < before.arrivals.len() && before.arrivals[k] == slot as int;
                    assert(before.recorded(k));
                }
            }
            assert forall|k: int| 0 <= k < after.arrivals.len() implies #[trigger] after.recorded(
                k,
            ) by {
                if k < before.arrivals.len() {
                    assert(before.recorded(k));
                    assert(before.arrivals[k] != slot as int);
                }
            }
            assert forall|i: int|
                0 <= i < after.tasks.len() && (#[trigger] after.status[i]).is_terminal()
                    implies after.arrivals.contains(i) by {
                if i == slot as int {
                    assert(after.arrivals[before.arrivals.len() as int] == i);
                } else {
                    assert(before.status[i].is_terminal());
                    let k = choose|k: int|
                        0 <= k < before.arrivals.len() && before.arrivals[k] == i;
                    assert(after.arrivals[k] == i);
                }
            }
        }
        Ok(())
    }
}

} // verus!
