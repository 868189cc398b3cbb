//! # Shell-Core
//!
//! `shell_core` provides the core functionality to implement a shell or to interface with one:
//! a session state (aliases, functions, variables, directory stack, history), a Bash
//! tokenizer, an expression runner and the task pipeline rules.

pub mod collections;
pub mod session;
pub mod math;
pub mod parsers;
pub mod paths;
pub mod runner;
pub mod statement;
pub mod streams;
pub mod tasks;
pub mod text;

pub use crate::statement::{ExprModel, HistoryModel, HistoryOptions, ShellExpression, ShellStatement, StatementModel};
pub use crate::session::{ShellCore, ShellHost};
pub use crate::streams::{ShellStream, UserStream};
pub use crate::tasks::{Task, TaskError, TaskErrorCode, TaskRelation};

use vstd::prelude::*;

verus! {

/// ## ShellState
///
/// Idle: the shell is doing nothing and is waiting for new commands.
/// Waiting: the shell is waiting for further input (an incomplete expression is buffered).
/// Running: the shell is running a process.
/// Terminated: the shell has terminated.
#[derive(Copy, Clone, PartialEq, Eq, Structural, Debug)]
pub enum ShellState {
    Idle,
    Waiting,
    Running,
    Terminated,
}

/// ## ShellError
///
/// An error raised by the shell. Paths are carried as strings.
#[derive(Clone, PartialEq, Debug)]
pub enum ShellError {
    NoSuchFileOrDirectory(String),
    NotADirectory(String),
    PermissionDenied(String),
    BadValue(String),
    OutOfHistoryRange,
    ShellNotInIdle,
    DirsStackEmpty,
    NoSuchAlias(String),
    TaskError(TaskError),
    Parser(ParserError),
    Math(MathError),
    Other,
}

/// ## FileRedirectionType
#[derive(Copy, Clone, PartialEq, Eq, Structural, Debug)]
pub enum FileRedirectionType {
    Truncate,
    Append,
}

/// ## Redirection
///
/// Where a command's output goes.
#[derive(PartialEq, Debug)]
pub enum Redirection {
    Stdout,
    Stderr,
    File(String, FileRedirectionType),
}

impl Clone for Redirection {
    fn clone(&self) -> (r: Redirection)
        ensures
            r == *self,
    {
        match self {
            Redirection::File(file, file_mode) => Redirection::File(file.clone(), *file_mode),
            Redirection::Stderr => Redirection::Stderr,
            Redirection::Stdout => Redirection::Stdout,
        }
    }
}

/// ## MathOperator
///
/// Operator of a `Let` statement.
#[derive(Copy, Clone, PartialEq, Eq, Structural, Debug)]
pub enum MathOperator {
    And,
    Divide,
    Equal,
    Module,
    Multiply,
    NotEqual,
    Or,
    Power,
    ShiftLeft,
    ShiftRight,
    Subtract,
    Sum,
    Xor,
}

/// ## MathError
#[derive(Copy, Clone, PartialEq, Eq, Structural, Debug)]
pub enum MathError {
    DividedByZero,
    NegativePower,
}

/// ## ParserError
#[derive(Clone, PartialEq, Debug)]
pub struct ParserError {
    pub code: ParserErrorCode,
    pub message: String,
}

/// ## ParserErrorCode
///
/// - Incomplete: the statement is incomplete, further input is required.
/// - BadToken: a bad token was found in the statement.
/// - TooManyArgs: a command received more arguments than it accepts.
#[derive(Copy, Clone, PartialEq, Eq, Structural, Debug)]
pub enum ParserErrorCode {
    Incomplete,
    BadToken,
    TooManyArgs,
}

/// ## ParseContext
///
/// What a parser may read of the session: the directories that `cd` arguments such as
/// `~` and `-` stand for, and the exported variables that `export` lists.
pub struct ParseContext {
    pub home_dir: String,
    pub prev_dir: String,
    pub environ: Vec<(String, String)>,
}

/// ## ParseStatement
///
/// What a shell parser engine (bash, fish, zsh...) implements: it turns a statement into
/// an expression, or reports why it cannot.
pub trait ParseStatement {
    /// Parses `statement` in the given session context.
    fn parse(&self, context: &ParseContext, statement: &String) -> Result<ShellExpression, ParserError>;
}

/// ## UnixSignal
#[derive(Copy, Clone, PartialEq, Eq, Structural, Debug)]
pub enum UnixSignal {
    Sighup,
    Sigint,
    Sigquit,
    Sigill,
    Sigtrap,
    Sigabrt,
    Sigbus,
    Sigfpe,
    Sigkill,
    Sigusr1,
    Sigsegv,
    Sigusr2,
    Sigpipe,
    Sigalrm,
    Sigterm,
    Sigstkflt,
    Sigchld,
    Sigcont,
    Sigstop,
    Sigtstp,
    Sigttin,
    Sigttou,
    Sigurg,
    Sigxcpu,
    Sigxfsz,
    Sigvtalrm,
    Sigprof,
    Sigwinch,
    Sigio,
    Sigpwr,
    Sigsys,
}

impl UnixSignal {
    /// The signal number of each signal, in the order of the enum (1 to 31).
    pub open spec fn spec_number(self) -> u8 {
        match self {
            UnixSignal::Sighup => 1,
            UnixSignal::Sigint => 2,
            UnixSignal::Sigquit => 3,
            UnixSignal::Sigill => 4,
            UnixSignal::Sigtrap => 5,
            UnixSignal::Sigabrt => 6,
            UnixSignal::Sigbus => 7,
            UnixSignal::Sigfpe => 8,
            UnixSignal::Sigkill => 9,
            UnixSignal::Sigusr1 => 10,
            UnixSignal::Sigsegv => 11,
            UnixSignal::Sigusr2 => 12,
            UnixSignal::Sigpipe => 13,
            UnixSignal::Sigalrm => 14,
            UnixSignal::Sigterm => 15,
            UnixSignal::Sigstkflt => 16,
            UnixSignal::Sigchld => 17,
            UnixSignal::Sigcont => 18,
            UnixSignal::Sigstop => 19,
            UnixSignal::Sigtstp => 20,
            UnixSignal::Sigttin => 21,
            UnixSignal::Sigttou => 22,
            UnixSignal::Sigurg => 23,
            UnixSignal::Sigxcpu => 24,
            UnixSignal::Sigxfsz => 25,
            UnixSignal::Sigvtalrm => 26,
            UnixSignal::Sigprof => 27,
            UnixSignal::Sigwinch => 28,
            UnixSignal::Sigio => 29,
            UnixSignal::Sigpwr => 30,
            UnixSignal::Sigsys => 31,
        }
    }

    /// Returns the UNIX number of the signal.
    pub fn number(&self) -> (n: u8)
        ensures
            n == self.spec_number(),
            1 <= n <= 31,
    {
        match self {
            UnixSignal::Sighup => 1,
            UnixSignal::Sigint => 2,
            UnixSignal::Sigquit => 3,
            UnixSignal::Sigill => 4,
            UnixSignal::Sigtrap => 5,
            UnixSignal::Sigabrt => 6,
            UnixSignal::Sigbus => 7,
            UnixSignal::Sigfpe => 8,
            UnixSignal::Sigkill => 9,
            UnixSignal::Sigusr1 => 10,
            UnixSignal::Sigsegv => 11,
            UnixSignal::Sigusr2 => 12,
            UnixSignal::Sigpipe => 13,
            UnixSignal::Sigalrm => 14,
            UnixSignal::Sigterm => 15,
            UnixSignal::Sigstkflt => 16,
            UnixSignal::Sigchld => 17,
            UnixSignal::Sigcont => 18,
            UnixSignal::Sigstop => 19,
            UnixSignal::Sigtstp => 20,
            UnixSignal::Sigttin => 21,
            UnixSignal::Sigttou => 22,
            UnixSignal::Sigurg => 23,
            UnixSignal::Sigxcpu => 24,
            UnixSignal::Sigxfsz => 25,
            UnixSignal::Sigvtalrm => 26,
            UnixSignal::Sigprof => 27,
            UnixSignal::Sigwinch => 28,
            UnixSignal::Sigio => 29,
            UnixSignal::Sigpwr => 30,
            UnixSignal::Sigsys => 31,
        }
    }
}

/// ## ShellStreamMessage
///
/// The messages the shell sends to the "user".
pub enum ShellStreamMessage {
    /// Shell output (stdout, stderr)
    Output((Option<String>, Option<String>)),
    /// Shell error
    Error(ShellError),
    /// Directory stack output
    Dirs(std::collections::VecDeque<String>),
    /// List of aliases (name, command)
    Alias(Vec<(String, String)>),
    /// Command duration, in milliseconds
    Time(u64),
}

/// ## UserStreamMessage
///
/// The messages the "user" sends to the shell during an execution.
pub enum UserStreamMessage {
    /// Stdin
    Input(String),
    /// Kill the running task
    Kill,
    /// Forward a signal to the running task
    Signal(UnixSignal),
    /// Interrupt the shell runner execution (and the process)
    Interrupt,
}

} // verus!
