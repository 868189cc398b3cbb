//! Tests of tasks and of the pipeline decisions.

use shell_core::tasks::pipeline::{exit_code_after, next_action, pipeline_result, PipelineAction, TERMINATED_EXIT_CODE};
use shell_core::tasks::manager::TaskManager;
use shell_core::tasks::{Process, TaskHost, TaskMessageTx};
use shell_core::{FileRedirectionType, Redirection, Task, TaskErrorCode, TaskRelation, UnixSignal};

/// A host on which no command exists.
struct NoProcessHost;

impl TaskHost for NoProcessHost {
    fn exec(&self, _argv: &Vec<String>) -> Result<Box<dyn Process>, ()> {
        Err(())
    }

    fn write_file(&self, _file: &String, _mode: FileRedirectionType, _content: &String) -> Result<(), String> {
        Ok(())
    }
}

#[test]
fn test_task_new() {
    let command: Vec<String> = vec![String::from("echo"), String::from("foobar")];
    let task: Task = Task::new(command, Redirection::Stdout, Redirection::Stderr);
    //Verify constructor
    assert!(task.exit_code.is_none());
    assert!(task.process.is_none());
    assert!(task.next.is_none());
    assert_eq!(task.relation, TaskRelation::Unrelated);
    assert_eq!(task.stderr_redirection, Redirection::Stderr);
    assert_eq!(task.stdout_redirection, Redirection::Stdout);
    assert_eq!(task.command[0], String::from("echo"));
    assert_eq!(task.command[1], String::from("foobar"));
}

#[test]
fn test_task_start_failed() {
    let command: Vec<String> = vec![String::from("thiscommandfails")];
    let mut task: Task = Task::new(command, Redirection::Stdout, Redirection::Stderr);
    //Start process
    assert_eq!(
        task.start(&NoProcessHost).err().unwrap().code,
        TaskErrorCode::CouldNotStartTask
    );
}

#[test]
fn test_task_kill_not_running() {
    let command: Vec<String> = vec![String::from("yes")];
    let mut task: Task = Task::new(command, Redirection::Stdout, Redirection::Stderr);
    //OOps, I forgot to start process
    //Process should be still running
    assert!(!task.is_running());
    //Kill process
    assert_eq!(
        task.raise(UnixSignal::Sigint).err().unwrap().code,
        TaskErrorCode::ProcessTerminated
    );
    assert_eq!(
        task.kill().err().unwrap().code,
        TaskErrorCode::ProcessTerminated
    );
    //Exit code should be 9
    assert!(task.get_exitcode().is_none());
}

#[test]
fn task_pipeline_appends_with_relation() {
    let mut task = Task::new(vec![String::from("a")], Redirection::Stdout, Redirection::Stderr);
    task.new_pipeline(vec![String::from("b")], Redirection::Stdout, Redirection::Stderr, TaskRelation::And);
    task.new_pipeline(vec![String::from("c")], Redirection::Stderr, Redirection::Stderr, TaskRelation::Or);
    assert_eq!(task.relation, TaskRelation::And);
    let b = task.next.as_ref().unwrap();
    assert_eq!(b.command, vec![String::from("b")]);
    assert_eq!(b.relation, TaskRelation::Or);
    let c = b.next.as_ref().unwrap();
    assert_eq!(c.command, vec![String::from("c")]);
    assert_eq!(c.relation, TaskRelation::Unrelated);
    assert!(c.next.is_none());
    assert!(task.process.is_none() && b.process.is_none() && c.process.is_none());
    assert!(task.exit_code.is_none() && b.exit_code.is_none() && c.exit_code.is_none());
}

#[test]
fn task_truncate_keeps_prefix() {
    let mut task = Task::new(vec![String::from("a")], Redirection::Stdout, Redirection::Stderr);
    task.new_pipeline(vec![String::from("b")], Redirection::Stdout, Redirection::Stderr, TaskRelation::And);
    task.new_pipeline(vec![String::from("c")], Redirection::Stdout, Redirection::Stderr, TaskRelation::Or);
    let r = task.truncate(3);
    assert_eq!(r, TaskRelation::Or);
    assert!(task.next.as_ref().unwrap().next.is_none());
    assert_eq!(task.next.as_ref().unwrap().relation, TaskRelation::Unrelated);
}

#[test]
fn pipeline_decisions() {
    assert_eq!(exit_code_after(255, Some(0)), 0);
    assert_eq!(exit_code_after(3, None), 3);
    assert_eq!(next_action(TaskRelation::And, true, 0), PipelineAction::Advance { start: true });
    assert_eq!(next_action(TaskRelation::And, true, 1), PipelineAction::Advance { start: false });
    assert_eq!(next_action(TaskRelation::Or, true, 0), PipelineAction::Advance { start: false });
    assert_eq!(next_action(TaskRelation::Or, true, 2), PipelineAction::Advance { start: true });
    assert_eq!(next_action(TaskRelation::Pipe, true, 0), PipelineAction::Advance { start: false });
    assert_eq!(next_action(TaskRelation::Unrelated, true, 9), PipelineAction::Advance { start: true });
    assert_eq!(next_action(TaskRelation::And, false, 4), PipelineAction::Finish(4));
    assert_eq!(TERMINATED_EXIT_CODE, 130);
}

#[test]
fn pipeline_and_chain_stops_after_failure() {
    // t1 fails: t2 is skipped, and the failure is what t3 sees
    let mut last = 255u8;
    last = exit_code_after(last, Some(1));
    assert_eq!(next_action(TaskRelation::And, true, last), PipelineAction::Advance { start: false });
    last = exit_code_after(last, None);
    assert_eq!(next_action(TaskRelation::And, true, last), PipelineAction::Advance { start: false });
    assert_eq!(last, 1);
}

#[test]
fn unix_signal_numbers() {
    assert_eq!(UnixSignal::Sighup.number(), 1);
    assert_eq!(UnixSignal::Sigint.number(), 2);
    assert_eq!(UnixSignal::Sigkill.number(), 9);
    assert_eq!(UnixSignal::Sigterm.number(), 15);
    assert_eq!(UnixSignal::Sigsys.number(), 31);
}

#[test]
fn test_manager_new() {
    let command: Vec<String> = vec![String::from("echo"), String::from("foobar")];
    let sample_task: Task = Task::new(command, Redirection::Stdout, Redirection::Stderr);
    //Instantiate task manager
    let manager: TaskManager = TaskManager::new(sample_task);
    //Verify manager (its worker thread belongs to the embedding program, so there is none here)
    assert!(!manager.is_running());
    assert!(manager.next.is_some());
    assert!(manager.receiver.is_none());
    assert!(manager.sender.is_none());
    //Send must fail
    assert_eq!(manager.send_message(TaskMessageTx::Kill).err().unwrap().code, TaskErrorCode::ProcessTerminated);
    //Receive must fail
    assert_eq!(manager.fetch_messages().err().unwrap().code, TaskErrorCode::ProcessTerminated);
}

#[test]
fn pipeline_result_prefers_the_task_exit_code() {
    assert_eq!(pipeline_result(false, Some(3), 255), 3);
    assert_eq!(pipeline_result(true, Some(9), 255), 9);
    assert_eq!(pipeline_result(true, None, 255), 130);
    assert_eq!(pipeline_result(false, None, 2), 2);
}
