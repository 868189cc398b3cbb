//! # Task
//!
//! The operations of `Task`: building pipelines, starting processes, routing their output.

use super::{Process, Task, TaskError, TaskErrorCode, TaskHost, TaskLink, TaskRelation};
use crate::text::owned;
use crate::{FileRedirectionType, Redirection, UnixSignal};
use vstd::prelude::*;

verus! {

/// The pipeline `links` where the relation of the last element becomes `relation`.
pub open spec fn with_last_relation(links: Seq<TaskLink>, relation: TaskRelation) -> Seq<TaskLink> {
    links.update(
        links.len() - 1,
        TaskLink {
            command: links.last().command,
            stdout: links.last().stdout,
            stderr: links.last().stderr,
            relation: relation,
        },
    )
}

/// The file write an output under `redirection` is handed to: none unless the redirection
/// is a file and there is an output.
pub open spec fn file_write(redirection: Redirection, output: Option<String>) -> Seq<(Seq<char>, FileRedirectionType, Seq<char>)> {
    match (redirection, output) {
        (Redirection::File(f, mode), Some(o)) => seq![(f@, mode, o@)],
        _ => Seq::empty(),
    }
}

impl Task {
    /// ## new
    ///
    /// Instantiates a new unrelated task; chain tasks with `new_pipeline`.
    pub fn new(command: Vec<String>, stdout_redir: Redirection, stderr_redir: Redirection) -> (t: Task)
        ensures
            t.command == command,
            t.stdout_redirection == stdout_redir,
            t.stderr_redirection == stderr_redir,
            t.process is None,
            t.relation == TaskRelation::Unrelated,
            t.next is None,
            t.exit_code is None,
            t.chain() == seq![t.link()],
    {
        Task {
            command,
            stdout_redirection: stdout_redir,
            stderr_redirection: stderr_redir,
            process: None,
            relation: TaskRelation::Unrelated,
            next: None,
            exit_code: None,
            file_log: Ghost(Seq::empty()),
        }
    }

    /// ## new_pipeline
    ///
    /// Appends a new task at the end of the pipeline; the former last task gets `relation`.
    pub fn new_pipeline(
        &mut self,
        next_command: Vec<String>,
        stdout_redir: Redirection,
        stderr_redir: Redirection,
        relation: TaskRelation,
    )
        ensures
            final(self).chain() == with_last_relation(old(self).chain(), relation).push(
                TaskLink {
                    command: command_view_of(next_command),
                    stdout: stdout_redir,
                    stderr: stderr_redir,
                    relation: TaskRelation::Unrelated,
                },
            ),
            final(self).command == old(self).command,
            final(self).exit_code == old(self).exit_code,
            final(self).run_states() == old(self).run_states().push((false, None::<u8>)),
            (old(self).wf() && next_command@.len() > 0) ==> final(self).wf(),
        decreases old(self).chain().len(),
    {
        let ghost old_self_chain = self.chain();
        let ghost old_states = self.run_states();
        proof { lemma_chain_len(self); }
        if self.next.is_none() {
            self.relation = relation;
            let t = Task::new(next_command, stdout_redir, stderr_redir);
            assert(next_command@.len() > 0 ==> t.wf());
            self.next = Some(Box::new(t));
            assert(t.run_states() == seq![(false, None::<u8>)]);
            assert(self.run_states() =~= old_states.push((false, None::<u8>)));
            assert(self.chain() =~= with_last_relation(old_self_chain, relation).push(
                TaskLink {
                    command: command_view_of(next_command),
                    stdout: stdout_redir,
                    stderr: stderr_redir,
                    relation: TaskRelation::Unrelated,
                }));
        } else {
            let mut next = self.next.take().unwrap();
            let ghost next_states = next.run_states();
            proof { lemma_chain_len(&*next); }
            next.new_pipeline(next_command, stdout_redir, stderr_redir, relation);
            self.next = Some(next);
            assert(old_states == seq![(self.process is Some, self.exit_code)].add(next_states));
            assert(self.run_states() =~= old_states.push((false, None::<u8>)));
            assert(self.chain() =~= with_last_relation(old_self_chain, relation).push(
                TaskLink {
                    command: command_view_of(next_command),
                    stdout: stdout_redir,
                    stderr: stderr_redir,
                    relation: TaskRelation::Unrelated,
                }));
        }
    }

    /// ## truncate
    ///
    /// Keeps the first `len - 1` tasks of the pipeline (or all of them, when the pipeline
    /// is shorter) and returns the relation the last kept task had; that task then ends
    /// the pipeline, with an `Unrelated` relation.
    pub fn truncate(&mut self, len: usize) -> (r: TaskRelation)
        requires
            len >= 2,
        ensures
            ({
                let keep = if len - 1 < old(self).chain().len() { len - 1 } else { old(self).chain().len() as int };
                &&& final(self).chain() == with_last_relation(old(self).chain().take(keep), TaskRelation::Unrelated)
                &&& r == old(self).chain()[keep - 1].relation
            }),
            final(self).command == old(self).command,
            final(self).exit_code == old(self).exit_code,
            old(self).wf() ==> final(self).wf(),
        decreases len,
    {
        let ghost old_chain = self.chain();
        proof { lemma_chain_len(self); }
        if len == 2 || self.next.is_none() {
            let r = self.relation;
            self.relation = TaskRelation::Unrelated;
            self.next = None;
            assert(self.chain() =~= with_last_relation(old_chain.take(1), TaskRelation::Unrelated));
            r
        } else {
            let mut next = self.next.take().unwrap();
            proof { lemma_chain_len(&*next); }
            let r = next.truncate(len - 1);
            self.next = Some(next);
            assert(self.chain() =~= with_last_relation(
                old_chain.take(if len - 1 < old_chain.len() { len - 1 } else { old_chain.len() as int }),
                TaskRelation::Unrelated,
            ));
            r
        }
    }

    /// Whether the pipeline is well formed (`wf`): every task has a command, and only a
    /// task followed by another one is piped into it.
    pub fn is_well_formed(&self) -> (r: bool)
        ensures
            r == self.wf(),
        decreases self,
    {
        if self.command.len() == 0 {
            return false;
        }
        match &self.next {
            Some(next) => next.is_well_formed(),
            None => self.relation != TaskRelation::Pipe,
        }
    }

    /// ## start
    ///
    /// Starts the process. When the relation is `Pipe`, the next task is started first, so
    /// that in a pipe the processes start from the last to the first.
    pub fn start(&mut self, host: &dyn TaskHost) -> (r: Result<(), TaskError>)
        requires
            old(self).wf(),
        ensures
            final(self).chain() == old(self).chain(),
            final(self).wf(),
            final(self).exit_code == old(self).exit_code,
            old(self).process is Some ==> (r matches Err(e) && e.code == TaskErrorCode::AlreadyRunning) && *final(self) == *old(self),
            old(self).process is None ==> match r {
                Ok(()) => final(self).process is Some,
                Err(e) => e.code == TaskErrorCode::BrokenPipe || e.code == TaskErrorCode::CouldNotStartTask,
            },
            (old(self).process is None && old(self).relation != TaskRelation::Pipe && r is Err)
                ==> r->Err_0.code == TaskErrorCode::CouldNotStartTask,
        decreases old(self).chain().len(),
    {
        proof { lemma_chain_len(self); }
        if self.process.is_some() {
            return Err(TaskError::new(
                TaskErrorCode::AlreadyRunning,
                owned("Could not start process since it is already running"),
            ));
        }
        if self.relation == TaskRelation::Pipe {
            let mut next = self.next.take().unwrap();
            proof { lemma_chain_len(&*next); }
            let res = next.start(host);
            self.next = Some(next);
            if res.is_err() {
                return Err(TaskError::new(
                    TaskErrorCode::BrokenPipe,
                    owned("Failed to start next process in the pipeline"),
                ));
            }
        }
        match host.exec(&self.command) {
            Ok(p) => {
                self.process = Some(p);
                Ok(())
            },
            Err(_) => {
                let msg = owned("Could not start process ").concat(self.command[0].as_str());
                Err(TaskError::new(TaskErrorCode::CouldNotStartTask, msg))
            },
        }
    }

    /// ## read
    ///
    /// Reads the process output and routes it by the redirections: to the result, to the
    /// next task of a pipe, or to a file.
    pub fn read(&mut self, host: &dyn TaskHost) -> (r: Result<(Option<String>, Option<String>), TaskError>)
        requires
            old(self).wf(),
        ensures
            final(self).chain() == old(self).chain(),
            final(self).wf(),
            final(self).exit_code == old(self).exit_code,
            old(self).process is None ==> (r matches Err(e) && e.code == TaskErrorCode::ProcessTerminated),
            r matches Ok((out, err)) ==> (out matches Some(s) ==> s@.len() > 0) && (err matches Some(s) ==> s@.len() > 0),
            r matches Ok((out, err)) ==> exists|stdout: Option<String>, stderr: Option<String>|
                #![trigger file_write(old(self).stdout_redirection, stdout), file_write(old(self).stderr_redirection, stderr)]
            {
                &&& final(self).file_log@ == old(self).file_log@ + file_write(old(self).stdout_redirection, stdout)
                    + file_write(old(self).stderr_redirection, stderr)
                &&& opt_text(out) == to_stdout(*old(self), old(self).stdout_redirection, stdout)
                    + to_stdout(*old(self), old(self).stderr_redirection, stderr)
                &&& opt_text(err) == to_stderr(old(self).stdout_redirection, stdout) + to_stderr(old(self).stderr_redirection, stderr)
            },
    {
        let read_res = match self.process.as_mut() {
            None => {
                return Err(TaskError::new(TaskErrorCode::ProcessTerminated, owned("Process is not running")));
            },
            Some(p) => p.read(),
        };
        match read_res {
            Ok((stdout, stderr)) => {
                let ghost so = stdout;
                let ghost se = stderr;
                let r = self.route_output(host, stdout, stderr);
                proof {
                    if r is Ok {
                        assert(file_write(old(self).stdout_redirection, so) == file_write(old(self).stdout_redirection, so));
                        assert(file_write(old(self).stderr_redirection, se) == file_write(old(self).stderr_redirection, se));
                    }
                }
                r
            },
            Err(e) => Err(TaskError::new(
                TaskErrorCode::IoError,
                owned("Could not read from process: ").concat(e.as_str()),
            )),
        }
    }

    /// Routes what the process wrote: stdout by the stdout redirection, then stderr by the
    /// stderr redirection. Empty results become `None`.
    pub fn route_output(&mut self, host: &dyn TaskHost, stdout: Option<String>, stderr: Option<String>) -> (r:
        Result<(Option<String>, Option<String>), TaskError>)
        requires
            old(self).wf(),
        ensures
            final(self).chain() == old(self).chain(),
            final(self).wf(),
            final(self).exit_code == old(self).exit_code,
            final(self).process is Some == old(self).process is Some,
            r is Ok ==> final(self).file_log@ == old(self).file_log@ + file_write(old(self).stdout_redirection, stdout)
                + file_write(old(self).stderr_redirection, stderr),
            r matches Ok((out, err)) ==> {
                &&& opt_text(out) == to_stdout(*old(self), old(self).stdout_redirection, stdout)
                    + to_stdout(*old(self), old(self).stderr_redirection, stderr)
                &&& opt_text(err) == to_stderr(old(self).stdout_redirection, stdout)
                    + to_stderr(old(self).stderr_redirection, stderr)
                &&& (out matches Some(s) ==> s@.len() > 0)
                &&& (err matches Some(s) ==> s@.len() > 0)
            },
            r matches Err(e) ==> e.code == TaskErrorCode::BrokenPipe || e.code == TaskErrorCode::IoError,
    {
        let mut res_stdout = String::new();
        let mut res_stderr = String::new();
        let out_redir = self.stdout_redirection.clone();
        if let Err(err) = self.redirect_output(host, out_redir, stdout, &mut res_stdout, &mut res_stderr) {
            return Err(err);
        }
        let err_redir = self.stderr_redirection.clone();
        if let Err(err) = self.redirect_output(host, err_redir, stderr, &mut res_stdout, &mut res_stderr) {
            return Err(err);
        }
        let res_stdout = if res_stdout.as_str().unicode_len() == 0 { None } else { Some(res_stdout) };
        let res_stderr = if res_stderr.as_str().unicode_len() == 0 { None } else { Some(res_stderr) };
        Ok((res_stdout, res_stderr))
    }

    /// ### redirect_output
    ///
    /// Routes one output: to `stdout` (or into the next task, when piped), to `stderr`,
    /// or to a file.
    fn redirect_output(
        &mut self,
        host: &dyn TaskHost,
        redirection: Redirection,
        output: Option<String>,
        stdout: &mut String,
        stderr: &mut String,
    ) -> (r: Result<(), TaskError>)
        requires
            old(self).wf(),
        ensures
            final(self).chain() == old(self).chain(),
            final(self).wf(),
            final(self).exit_code == old(self).exit_code,
            final(self).process is Some == old(self).process is Some,
            final(self).relation == old(self).relation,
            final(self).stdout_redirection == old(self).stdout_redirection,
            final(self).stderr_redirection == old(self).stderr_redirection,
            r is Ok ==> final(stdout)@ == old(stdout)@ + to_stdout(*old(self), redirection, output),
            r is Ok ==> final(stderr)@ == old(stderr)@ + to_stderr(redirection, output),
            redirection is File ==> final(self).file_log@ == old(self).file_log@ + file_write(redirection, output),
            !(redirection is File) ==> final(self).file_log == old(self).file_log,
            r matches Err(e) ==> e.code == TaskErrorCode::BrokenPipe || e.code == TaskErrorCode::IoError,
    {
        match redirection {
            Redirection::Stdout => {
                if let Some(out) = output {
                    if self.relation == TaskRelation::Pipe {
                        let mut next = self.next.take().unwrap();
                        let res = next.write(out);
                        self.next = Some(next);
                        match res {
                            Ok(()) => {
                                return Ok(());
                            },
                            Err(err) => {
                                return Err(TaskError::new(TaskErrorCode::BrokenPipe, err.message));
                            },
                        }
                    } else {
                        stdout.append(out.as_str());
                    }
                }
            },
            Redirection::Stderr => {
                if let Some(out) = output {
                    stderr.append(out.as_str());
                }
            },
            Redirection::File(file, file_mode) => {
                if let Some(out) = output {
                    proof {
                        let w0 = self.file_log@;
                        self.file_log = Ghost(w0.push((file@, file_mode, out@)));
                        assert(self.file_log@ =~= w0 + file_write(redirection, Some(out)));
                    }
                    return match host.write_file(&file, file_mode, &out) {
                        Ok(()) => Ok(()),
                        Err(msg) => Err(TaskError::new(TaskErrorCode::IoError, msg)),
                    };
                }
            },
        }
        Ok(())
    }

    /// ### write
    ///
    /// Writes to the process stdin.
    pub fn write(&mut self, input: String) -> (r: Result<(), TaskError>)
        ensures
            final(self).chain() == old(self).chain(),
            final(self).wf() == old(self).wf(),
            final(self).exit_code == old(self).exit_code,
            final(self).process is Some == old(self).process is Some,
            old(self).process is None ==> (r matches Err(e) && e.code == TaskErrorCode::ProcessTerminated),
            r matches Err(e) ==> e.code == TaskErrorCode::ProcessTerminated || e.code == TaskErrorCode::IoError,
    {
        match self.process.as_mut() {
            None => Err(TaskError::new(TaskErrorCode::ProcessTerminated, owned("Process is not running"))),
            Some(p) => match p.write(input) {
                Ok(()) => Ok(()),
                Err(err) => Err(TaskError::new(
                    TaskErrorCode::IoError,
                    owned("Could not write to process stdin ").concat(err.as_str()),
                )),
            },
        }
    }

    /// ### kill
    ///
    /// Kills the running process.
    pub fn kill(&mut self) -> (r: Result<(), TaskError>)
        ensures
            final(self).chain() == old(self).chain(),
            final(self).wf() == old(self).wf(),
            final(self).exit_code == old(self).exit_code,
            final(self).process is Some == old(self).process is Some,
            old(self).process is None ==> (r matches Err(e) && e.code == TaskErrorCode::ProcessTerminated),
            old(self).process is Some ==> (r matches Err(e) ==> e.code == TaskErrorCode::KillError),
    {
        match self.process.as_mut() {
            None => Err(TaskError::new(TaskErrorCode::ProcessTerminated, owned("Process is not running"))),
            Some(p) => match p.kill() {
                Ok(()) => Ok(()),
                Err(()) => Err(TaskError::new(TaskErrorCode::KillError, owned("It was not possible to kill process"))),
            },
        }
    }

    /// ### raise
    ///
    /// Sends a signal to the running process.
    pub fn raise(&mut self, signal: UnixSignal) -> (r: Result<(), TaskError>)
        ensures
            final(self).chain() == old(self).chain(),
            final(self).wf() == old(self).wf(),
            final(self).exit_code == old(self).exit_code,
            final(self).process is Some == old(self).process is Some,
            old(self).process is None ==> (r matches Err(e) && e.code == TaskErrorCode::ProcessTerminated),
            old(self).process is Some ==> (r matches Err(e) ==> e.code == TaskErrorCode::KillError),
    {
        match self.process.as_mut() {
            None => Err(TaskError::new(TaskErrorCode::ProcessTerminated, owned("Process is not running"))),
            Some(p) => match p.raise(signal) {
                Ok(()) => Ok(()),
                Err(()) => Err(TaskError::new(
                    TaskErrorCode::KillError,
                    owned("It was not possible to send signal to process"),
                )),
            },
        }
    }

    /// ### is_running
    ///
    /// Whether the process is running. Once it has terminated, its exit status becomes the
    /// task's exit code.
    pub fn is_running(&mut self) -> (r: bool)
        ensures
            final(self).chain() == old(self).chain(),
            final(self).wf() == old(self).wf(),
            final(self).process is Some == old(self).process is Some,
            old(self).process is None ==> !r && final(self).exit_code == old(self).exit_code,
            r ==> final(self).exit_code == old(self).exit_code,
    {
        match self.process.as_mut() {
            Some(p) => {
                if p.is_running() {
                    true
                } else {
                    self.exit_code = p.exit_status();
                    false
                }
            },
            None => false,
        }
    }

    /// ### get_exitcode
    ///
    /// The task's exit code, once known.
    pub fn get_exitcode(&self) -> (r: Option<u8>)
        ensures
            r == self.exit_code,
    {
        self.exit_code
    }
}

/// The text an optional output holds (empty for `None`).
pub open spec fn opt_text(o: Option<String>) -> Seq<char> {
    match o {
        Some(s) => s@,
        None => Seq::empty(),
    }
}

/// What `output`, redirected by `redirection`, adds to the task's own stdout: nothing when it
/// goes to a file, to stderr, or into the next task of a pipe.
pub open spec fn to_stdout(t: Task, redirection: Redirection, output: Option<String>) -> Seq<char> {
    match (redirection, output) {
        (Redirection::Stdout, Some(o)) => if t.relation == TaskRelation::Pipe { Seq::empty() } else { o@ },
        _ => Seq::empty(),
    }
}

/// What `output`, redirected by `redirection`, adds to the task's own stderr.
pub open spec fn to_stderr(redirection: Redirection, output: Option<String>) -> Seq<char> {
    match (redirection, output) {
        (Redirection::Stderr, Some(o)) => o@,
        _ => Seq::empty(),
    }
}

/// The command words of a command line.
pub open spec fn command_view_of(command: Vec<String>) -> Seq<Seq<char>> {
    super::command_view(command)
}

/// A pipeline is never empty.
pub proof fn lemma_chain_len(t: &Task)
    ensures
        t.chain().len() >= 1,
        t.chain()[0] == t.link(),
        t.next matches Some(n) ==> t.chain().len() == 1 + n.chain().len() && t.chain().drop_first() == n.chain(),
        t.next is None ==> t.chain().len() == 1,
{
    match t.next {
        Some(n) => {
            assert(t.chain().drop_first() =~= n.chain());
        },
        None => {},
    }
}

} // verus!
