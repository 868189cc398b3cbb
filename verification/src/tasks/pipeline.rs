//! # Pipeline scheduling
//!
//! What a task manager decides while it runs a pipeline: once the current task is no
//! longer running, its exit code becomes the pipeline's last exit code (a task that never
//! ran leaves it as it was), and the relation to the next task decides whether the next
//! one starts; while a task runs, the controller's messages are passed on to it, or end
//! the pipeline. The loop that waits for processes is the embedding program's; these
//! functions are its decisions.

use super::{TaskErrorCode, TaskMessageTx, TaskRelation};
use crate::UnixSignal;
use vstd::prelude::*;

verus! {

/// The exit code a pipeline reports when it is terminated on request.
pub const TERMINATED_EXIT_CODE: u8 = 130;

/// The exit code a pipeline reports when its controller hung up, or when no task ever
/// reported one.
pub const UNKNOWN_EXIT_CODE: u8 = 255;

/// What to do once the current task is no longer running.
#[derive(Copy, Clone, PartialEq, Eq, Structural, Debug)]
pub enum PipelineAction {
    /// Move to the next task; start it when `start` holds (a piped task already runs,
    /// and a task whose relation is not satisfied is skipped).
    Advance { start: bool },
    /// The pipeline is over, with this exit code.
    Finish(u8),
}

/// The last exit code once a task reported `task_exit` (`None`: the task never ran or
/// reported none).
pub open spec fn spec_exit_code_after(last: u8, task_exit: Option<u8>) -> u8 {
    match task_exit {
        Some(c) => c,
        None => last,
    }
}

/// Whether the task after one related by `relation` is started, given the last exit code.
pub open spec fn starts_next(relation: TaskRelation, last: u8) -> bool {
    match relation {
        TaskRelation::And => last == 0,
        TaskRelation::Or => last != 0,
        TaskRelation::Pipe => false,
        TaskRelation::Unrelated => true,
    }
}

/// The last exit code once the current task has reported `task_exit`.
pub fn exit_code_after(last: u8, task_exit: Option<u8>) -> (r: u8)
    ensures
        r == spec_exit_code_after(last, task_exit),
{
    match task_exit {
        Some(c) => c,
        None => last,
    }
}

/// The exit code a pipeline's worker ends with: the exit code the current task has, else
/// `TERMINATED_EXIT_CODE` once the pipeline was terminated, else the last exit code known.
pub fn pipeline_result(terminated: bool, task_exit: Option<u8>, last: u8) -> (r: u8)
    ensures
        r == (match task_exit {
            Some(c) => c,
            None => if terminated { TERMINATED_EXIT_CODE } else { last },
        }),
{
    match task_exit {
        Some(c) => c,
        None => if terminated {
            TERMINATED_EXIT_CODE
        } else {
            last
        },
    }
}

/// What follows a task related to the next one by `relation` (when there is a next one)
/// once it stopped running and the last exit code is `last`.
pub fn next_action(relation: TaskRelation, has_next: bool, last: u8) -> (r: PipelineAction)
    ensures
        !has_next ==> r == PipelineAction::Finish(last),
        has_next ==> r == (PipelineAction::Advance { start: starts_next(relation, last) }),
{
    if !has_next {
        return PipelineAction::Finish(last);
    }
    match relation {
        TaskRelation::And => PipelineAction::Advance { start: last == 0 },
        TaskRelation::Or => PipelineAction::Advance { start: last != 0 },
        TaskRelation::Pipe => PipelineAction::Advance { start: false },
        TaskRelation::Unrelated => PipelineAction::Advance { start: true },
    }
}

/// What the worker finds on the controller's channel while a task runs: a message,
/// nothing pending, or a controller that hung up.
pub enum ControllerEvent {
    Message(TaskMessageTx),
    Nothing,
    HungUp,
}

/// What the worker does about a controller event while a task runs.
pub enum WorkerStep {
    /// Write this input to the task.
    Write(String),
    /// Kill the task; the pipeline goes on as the task's end decides.
    Kill,
    /// Send this signal to the task.
    Raise(UnixSignal),
    /// Nothing more to read from the controller now: wait for the task.
    Wait,
    /// Kill the task and end the pipeline, once joined, with `TERMINATED_EXIT_CODE`.
    Terminate,
    /// Kill the task and end the pipeline at once with `UNKNOWN_EXIT_CODE`: nobody
    /// listens any more.
    Abandon,
}

/// What the worker does about a controller event: input is written to the task, a kill
/// or a signal is passed on, a termination request ends the pipeline with 130, and a
/// controller that hung up ends it with 255.
pub fn worker_step(event: ControllerEvent) -> (r: WorkerStep)
    ensures
        match event {
            ControllerEvent::Message(TaskMessageTx::Input(s)) => r == WorkerStep::Write(s),
            ControllerEvent::Message(TaskMessageTx::Kill) => r == WorkerStep::Kill,
            ControllerEvent::Message(TaskMessageTx::Signal(sig)) => r == WorkerStep::Raise(sig),
            ControllerEvent::Message(TaskMessageTx::Terminate) => r == WorkerStep::Terminate,
            ControllerEvent::Nothing => r == WorkerStep::Wait,
            ControllerEvent::HungUp => r == WorkerStep::Abandon,
        },
{
    match event {
        ControllerEvent::Message(TaskMessageTx::Input(s)) => WorkerStep::Write(s),
        ControllerEvent::Message(TaskMessageTx::Kill) => WorkerStep::Kill,
        ControllerEvent::Message(TaskMessageTx::Signal(sig)) => WorkerStep::Raise(sig),
        ControllerEvent::Message(TaskMessageTx::Terminate) => WorkerStep::Terminate,
        ControllerEvent::Nothing => WorkerStep::Wait,
        ControllerEvent::HungUp => WorkerStep::Abandon,
    }
}

/// Whether an error met reading a task is reported to the controller: every error but
/// the end of the process, which is how a task normally stops.
pub fn reports_read_error(code: TaskErrorCode) -> (r: bool)
    ensures
        r == (code != TaskErrorCode::ProcessTerminated),
{
    code != TaskErrorCode::ProcessTerminated
}

/// Whether what a task wrote is reported to the controller: only when it wrote something.
pub fn reports_output(stdout: &Option<String>, stderr: &Option<String>) -> (r: bool)
    ensures
        r == (stdout is Some || stderr is Some),
{
    stdout.is_some() || stderr.is_some()
}

/// A pipeline run as the decisions above make it: which tasks ran, and the last exit code.
pub struct PipelineRun {
    pub runs: Seq<bool>,
    pub last: u8,
}

/// The run of a pipeline after its first `k` tasks stopped: `relations[i]` relates task `i`
/// to task `i + 1`, and `codes[i]` is what task `i` reports when it runs. The first task
/// always starts; a piped task runs exactly when the task piped into it runs.
pub open spec fn simulate(relations: Seq<TaskRelation>, codes: Seq<Option<u8>>, k: nat) -> PipelineRun
    decreases k,
{
    if k == 0 {
        PipelineRun { runs: seq![true], last: UNKNOWN_EXIT_CODE }
    } else {
        let prev = simulate(relations, codes, (k - 1) as nat);
        let i = k - 1;
        let ran = prev.runs[i];
        let last = if ran { spec_exit_code_after(prev.last, codes[i]) } else { prev.last };
        let next_runs = if relations[i] == TaskRelation::Pipe { ran } else { starts_next(relations[i], last) };
        PipelineRun { runs: prev.runs.push(next_runs), last: last }
    }
}

/// The exit code of a whole pipeline of `codes.len()` tasks.
pub open spec fn pipeline_exit_code(relations: Seq<TaskRelation>, codes: Seq<Option<u8>>) -> u8 {
    simulate(relations, codes, codes.len()).last
}

proof fn lemma_simulate_len(relations: Seq<TaskRelation>, codes: Seq<Option<u8>>, k: nat)
    ensures
        simulate(relations, codes, k).runs.len() == k + 1,
        forall|j: nat| j <= k ==> simulate(relations, codes, j).runs == #[trigger] simulate(relations, codes, k).runs.take((j + 1) as int),
    decreases k,
{
    if k > 0 {
        lemma_simulate_len(relations, codes, (k - 1) as nat);
        let prev = simulate(relations, codes, (k - 1) as nat);
        let cur = simulate(relations, codes, k);
        assert(cur.runs.take(k as int) =~= prev.runs);
        assert forall|j: nat| j <= k implies simulate(relations, codes, j).runs == #[trigger] cur.runs.take((j + 1) as int) by {
            if j < k {
                assert(cur.runs.take((j + 1) as int) =~= prev.runs.take((j + 1) as int));
            } else {
                assert(cur.runs.take((k + 1) as int) =~= cur.runs);
            }
        }
    }
}

/// Law: in a pipeline whose tasks are all joined by `&&`, and which all report an exit
/// code when they run, a task runs exactly when every task before it succeeded.
pub proof fn law_and_chain_runs_after_successes(relations: Seq<TaskRelation>, codes: Seq<Option<u8>>, k: nat)
    requires
        k <= codes.len(),
        relations.len() == codes.len(),
        forall|i: int| 0 <= i < relations.len() ==> relations[i] == TaskRelation::And,
        forall|i: int| 0 <= i < codes.len() ==> (#[trigger] codes[i]) is Some,
    ensures
        simulate(relations, codes, k).runs[k as int] <==> (forall|j: int| 0 <= j < k ==> codes[j] == Some(0u8)),
        k > 0 ==> (simulate(relations, codes, k).runs[k as int] <==> simulate(relations, codes, k).last == 0),
    decreases k,
{
    if k > 0 {
        law_and_chain_runs_after_successes(relations, codes, (k - 1) as nat);
        lemma_simulate_len(relations, codes, (k - 1) as nat);
        let prev = simulate(relations, codes, (k - 1) as nat);
        let i = k - 1;
        if prev.runs[i] {
            assert(codes[i] is Some);
        } else {
            if k - 1 > 0 {
                assert(prev.last != 0);
            } else {
                assert(prev.runs[0]);
            }
            assert(!(forall|j: int| 0 <= j < k - 1 ==> codes[j] == Some(0u8)));
        }
    }
}

/// Law: in a pipeline whose tasks are all joined by `||`, and which all report an exit
/// code when they run, a task runs exactly when every task before it failed.
pub proof fn law_or_chain_runs_after_failures(relations: Seq<TaskRelation>, codes: Seq<Option<u8>>, k: nat)
    requires
        k <= codes.len(),
        relations.len() == codes.len(),
        forall|i: int| 0 <= i < relations.len() ==> relations[i] == TaskRelation::Or,
        forall|i: int| 0 <= i < codes.len() ==> (#[trigger] codes[i]) is Some,
    ensures
        simulate(relations, codes, k).runs[k as int] <==> (forall|j: int| 0 <= j < k ==> codes[j] != Some(0u8)),
        k > 0 ==> (simulate(relations, codes, k).runs[k as int] <==> simulate(relations, codes, k).last != 0),
    decreases k,
{
    if k > 0 {
        law_or_chain_runs_after_failures(relations, codes, (k - 1) as nat);
        lemma_simulate_len(relations, codes, (k - 1) as nat);
        let prev = simulate(relations, codes, (k - 1) as nat);
        let i = k - 1;
        if prev.runs[i] {
            assert(codes[i] is Some);
        } else {
            if k - 1 > 0 {
                assert(prev.last == 0);
            } else {
                assert(prev.runs[0]);
            }
            assert(!(forall|j: int| 0 <= j < k - 1 ==> codes[j] != Some(0u8)));
        }
    }
}

/// Law: in a pipeline whose tasks are all unrelated, every task runs, and the pipeline's
/// exit code is the one the last task reported.
pub proof fn law_unrelated_chain_runs_all(relations: Seq<TaskRelation>, codes: Seq<Option<u8>>, k: nat)
    requires
        0 < k <= codes.len(),
        relations.len() == codes.len(),
        forall|i: int| 0 <= i < relations.len() ==> relations[i] == TaskRelation::Unrelated,
        forall|i: int| 0 <= i < codes.len() ==> (#[trigger] codes[i]) is Some,
    ensures
        forall|j: int| 0 <= j <= k ==> #[trigger] simulate(relations, codes, k).runs[j],
        Some(simulate(relations, codes, k).last) == codes[k - 1],
        k == codes.len() ==> Some(pipeline_exit_code(relations, codes)) == codes.last(),
    decreases k,
{
    lemma_simulate_len(relations, codes, k);
    let cur = simulate(relations, codes, k);
    let prev = simulate(relations, codes, (k - 1) as nat);
    assert(relations[k - 1] == TaskRelation::Unrelated);
    assert(codes[k - 1] is Some);
    if k > 1 {
        law_unrelated_chain_runs_all(relations, codes, (k - 1) as nat);
        assert(prev.runs[k - 1]);
    } else {
        assert(prev.runs == seq![true]);
    }
    assert(cur.runs == prev.runs.push(true));
    assert forall|j: int| 0 <= j <= k implies #[trigger] cur.runs[j] by {
        if j < k {
            assert(cur.runs[j] == prev.runs[j]);
        }
    }
}

} // verus!
