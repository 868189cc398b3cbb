//! # Tasks
//!
//! A task is a command line with its redirections; tasks are chained into pipelines
//! through a `TaskRelation`. The processes themselves are started through a
//! `TaskHost`, which the embedding program provides.

pub mod manager;
pub mod pipeline;
pub mod task;

use crate::{FileRedirectionType, Redirection, UnixSignal};
use vstd::prelude::*;

verus! {

/// ## TaskRelation
///
/// The relation between a task and the next one in a pipeline.
///
/// - And: the next command is executed only if the current one has finished with success
/// - Or: the next command is executed only if the current one has failed
/// - Pipe: the commands run at the same time, the output of the first is the input of the second
/// - Unrelated: the next command is always executed; the return code is the one of the last command
#[derive(Copy, Clone, PartialEq, Eq, Structural, Debug)]
pub enum TaskRelation {
    And,
    Or,
    Pipe,
    Unrelated,
}

/// ## TaskErrorCode
#[derive(Copy, Clone, PartialEq, Eq, Structural, Debug)]
pub enum TaskErrorCode {
    AlreadyRunning,
    BrokenPipe,
    CouldNotStartTask,
    IoError,
    KillError,
    ProcessTerminated,
}

/// ## TaskError
#[derive(Clone, PartialEq, Debug)]
pub struct TaskError {
    pub code: TaskErrorCode,
    pub message: String,
}

impl TaskError {
    /// Instantiates a new task error.
    pub fn new(code: TaskErrorCode, message: String) -> (e: TaskError)
        ensures
            e.code == code,
            e.message@ == message@,
    {
        TaskError { code, message }
    }
}

/// ## TaskMessageRx
///
/// Messages a running pipeline reports.
pub enum TaskMessageRx {
    Output((Option<String>, Option<String>)),
    Error(TaskError),
}

/// ## TaskMessageTx
///
/// Messages sent to a running pipeline.
pub enum TaskMessageTx {
    Input(String),
    Kill,
    Signal(UnixSignal),
    Terminate,
}

/// A running operating-system process, as the embedding program provides it.
pub trait Process: Send {
    /// Reads what the process wrote on stdout and stderr since the last read.
    fn read(&mut self) -> Result<(Option<String>, Option<String>), String>;

    /// Writes to the process stdin.
    fn write(&mut self, input: String) -> Result<(), String>;

    /// Kills the process.
    fn kill(&mut self) -> Result<(), ()>;

    /// Sends a signal to the process.
    fn raise(&mut self, signal: UnixSignal) -> Result<(), ()>;

    /// Whether the process is still running.
    fn is_running(&mut self) -> bool;

    /// The exit status, once the process has terminated.
    fn exit_status(&self) -> Option<u8>;
}

/// The services tasks need from the operating system: starting processes and writing
/// redirected output to files.
pub trait TaskHost {
    /// Starts a process running `argv`.
    fn exec(&self, argv: &Vec<String>) -> Result<Box<dyn Process>, ()>;

    /// Writes `content` to `file`, truncating or appending; the error carries a message.
    fn write_file(&self, file: &String, mode: FileRedirectionType, content: &String) -> Result<(), String>;
}

/// ## Task
///
/// A command with its redirections, possibly chained to a next task.
/// `file_log` lists the outputs redirected to a path, in order: path, mode and text.
pub struct Task {
    pub command: Vec<String>,
    pub stdout_redirection: Redirection,
    pub stderr_redirection: Redirection,
    pub process: Option<Box<dyn Process>>,
    pub relation: TaskRelation,
    pub next: Option<Box<Task>>,
    pub exit_code: Option<u8>,
    pub file_log: Ghost<Seq<(Seq<char>, FileRedirectionType, Seq<char>)>>,
}

/// One element of a pipeline, as its definition describes it.
pub struct TaskLink {
    pub command: Seq<Seq<char>>,
    pub stdout: Redirection,
    pub stderr: Redirection,
    pub relation: TaskRelation,
}

/// The command words of a command line.
pub open spec fn command_view(command: Vec<String>) -> Seq<Seq<char>> {
    Seq::new(command@.len(), |i: int| command@[i]@)
}

impl Task {
    /// The pipeline element a task stands for.
    pub open spec fn link(&self) -> TaskLink {
        TaskLink {
            command: command_view(self.command),
            stdout: self.stdout_redirection,
            stderr: self.stderr_redirection,
            relation: self.relation,
        }
    }

    /// For each task of the pipeline, in order: whether it has a process, and its exit code.
    pub open spec fn run_states(&self) -> Seq<(bool, Option<u8>)>
        decreases self,
    {
        let s = (self.process is Some, self.exit_code);
        match self.next {
            Some(next) => seq![s].add(next.run_states()),
            None => seq![s],
        }
    }

    /// The pipeline that starts with a task.
    pub open spec fn chain(&self) -> Seq<TaskLink>
        decreases self,
    {
        match self.next {
            Some(next) => seq![self.link()].add(next.chain()),
            None => seq![self.link()],
        }
    }

    /// Every task of the pipeline has a command, and only a task followed by another
    /// one is piped into it.
    pub open spec fn wf(&self) -> bool
        decreases self,
    {
        &&& self.command@.len() > 0
        &&& (self.relation == TaskRelation::Pipe ==> self.next is Some)
        &&& match self.next {
            Some(next) => next.wf(),
            None => true,
        }
    }
}

} // verus!
