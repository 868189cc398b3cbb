//! # Task manager
//!
//! `TaskManager`: the controller's end of a pipeline that runs on a worker of its own. It
//! holds the pipeline until it starts, then the two channels to the worker and the flags
//! the worker and the controller share. The worker's loop and the thread itself belong to
//! the embedding program; its decisions are in `pipeline`.

use super::{Task, TaskError, TaskErrorCode, TaskMessageRx, TaskMessageTx};
use crate::streams::{drain, send_on};
use crate::text::owned;
use std::sync::atomic::{AtomicBool, Ordering};
use std::sync::mpsc::{Receiver, Sender};
use std::sync::Arc;
use vstd::prelude::*;

verus! {

/// ## TaskManager
pub struct TaskManager {
    pub running: Arc<AtomicBool>,
    pub joined: Arc<AtomicBool>,
    pub receiver: Option<Receiver<TaskMessageRx>>,
    pub sender: Option<Sender<TaskMessageTx>>,
    pub next: Option<Task>,
}

/// Reads a shared flag.
pub fn flag_get(flag: &Arc<AtomicBool>) -> bool {
    flag.load(Ordering::SeqCst)
}

/// Sets a shared flag.
pub fn flag_set(flag: &Arc<AtomicBool>, value: bool) {
    flag.store(value, Ordering::SeqCst)
}

impl TaskManager {
    /// ### new
    ///
    /// A manager for the pipeline starting at `first_task`, not started yet.
    pub fn new(first_task: Task) -> (m: TaskManager)
        ensures
            m.next == Some(first_task),
            m.receiver is None,
            m.sender is None,
    {
        TaskManager {
            running: Arc::new(AtomicBool::new(false)),
            joined: Arc::new(AtomicBool::new(false)),
            receiver: None,
            sender: None,
            next: Some(first_task),
        }
    }

    /// What starting the manager decides: when it is already running, or its pipeline
    /// already ran, the start fails; otherwise the manager keeps the channels to the
    /// worker, counts as running, and hands over the pipeline the worker is to run.
    pub fn begin(&mut self, receiver: Receiver<TaskMessageRx>, sender: Sender<TaskMessageTx>) -> (r: Result<Task, TaskError>)
        ensures
            match r {
                Ok(task) => old(self).next == Some(task) && final(self).next is None
                    && final(self).receiver == Some(receiver) && final(self).sender == Some(sender),
                Err(e) => (e.code == TaskErrorCode::AlreadyRunning || (e.code == TaskErrorCode::ProcessTerminated && old(self).next is None))
                    && final(self).next == old(self).next && final(self).receiver == old(self).receiver
                    && final(self).sender == old(self).sender,
            },
            old(self).next is None ==> r is Err,
    {
        if flag_get(&self.running) {
            return Err(TaskError::new(TaskErrorCode::AlreadyRunning, owned("Could not start the TaskManager since it is already running")));
        }
        match self.next.take() {
            None => Err(TaskError::new(TaskErrorCode::ProcessTerminated, owned("TaskManager has already terminated"))),
            Some(task) => {
                self.receiver = Some(receiver);
                self.sender = Some(sender);
                flag_set(&self.running, true);
                Ok(task)
            },
        }
    }

    /// ### fetch_messages
    ///
    /// The messages the worker sent since the last call, in order. It fails when the
    /// manager is not running or the worker hung up.
    pub fn fetch_messages(&self) -> (r: Result<Vec<TaskMessageRx>, TaskError>)
        ensures
            self.receiver is None ==> r is Err,
            r is Err ==> r->Err_0.code == TaskErrorCode::ProcessTerminated,
    {
        match &self.receiver {
            None => Err(TaskError::new(TaskErrorCode::ProcessTerminated, owned("It was not possible to collect messages, since the task is not running"))),
            Some(receiver) => match drain(receiver) {
                Ok(inbox) => Ok(inbox),
                Err(()) => Err(TaskError::new(TaskErrorCode::ProcessTerminated, owned("It was not possible to collect messages, since the task is not running"))),
            },
        }
    }

    /// ### send_message
    ///
    /// Sends a message to the worker. It fails when the manager is not running or the
    /// worker hung up.
    pub fn send_message(&self, message: TaskMessageTx) -> (r: Result<(), TaskError>)
        ensures
            self.sender is None ==> r is Err,
            r is Err ==> r->Err_0.code == TaskErrorCode::ProcessTerminated,
    {
        match &self.sender {
            None => Err(TaskError::new(TaskErrorCode::ProcessTerminated, owned("TaskManager is not running"))),
            Some(sender) => {
                if send_on(sender, message) {
                    Ok(())
                } else {
                    Err(TaskError::new(TaskErrorCode::ProcessTerminated, owned("Receiver hung up")))
                }
            },
        }
    }

    /// ### is_running
    ///
    /// Whether the worker still runs the pipeline.
    pub fn is_running(&self) -> (r: bool) {
        flag_get(&self.running)
    }

    /// What joining the worker leaves: the channels are dropped.
    pub fn detach(&mut self)
        ensures
            final(self).receiver is None,
            final(self).sender is None,
            final(self).next == old(self).next,
    {
        self.receiver = None;
        self.sender = None;
    }
}

} // verus!
