//! Tests of the session (`ShellCore`) and of the runner, against a host that simulates
//! the operating system: a few directories exist, and `echo` is the only command.

use shell_core::parsers::bash::Bash;
use shell_core::runner::{chain_result, read_value, task_control, trim_final_newline, ChainBlock, Function, ShellRunner, TaskChain, TaskControl};
use shell_core::session::{home_or_root, read_error, DirError, FileError, TaskRun};
use shell_core::statement::{HistoryOptions, ShellExpression, ShellStatement};
use shell_core::streams::ShellStream;
use shell_core::tasks::TaskMessageTx;
use shell_core::{
    FileRedirectionType, MathOperator, ParseContext, ParseStatement, ParserError, ParserErrorCode, Redirection, ShellCore, ShellError, ShellHost, ShellState, ShellStreamMessage,
    Task, TaskRelation, UnixSignal, UserStream, UserStreamMessage,
};
use std::collections::VecDeque;
use std::mem::{discriminant, drop};

/// The directories that exist for the tests.
const DIRS: [&str; 10] = ["/", "/tmp", "/tmp/", "/var", "/var/", "/home", "/home/", "/etc", "/etc/", "/bin/"];

/// A host that simulates the operating system.
struct TestHost;

impl ShellHost for TestHost {
    fn change_dir(&self, dir: &String) -> Result<(), DirError> {
        if DIRS.contains(&dir.as_str()) || *dir == home() {
            Ok(())
        } else {
            Err(DirError::NotFound)
        }
    }

    fn environment(&self) -> Vec<(String, String)> {
        vec![(String::from("SHELL_CORE_TEST"), String::from("1"))]
    }

    fn set_env(&self, _key: &String, _value: &String) {}

    fn remove_env(&self, _key: &String) {}

    fn read_file(&self, _file: &String) -> Result<String, FileError> {
        Err(FileError::NotFound)
    }

    fn list_dir(&self, _dir: &String) -> Result<Vec<String>, DirError> {
        Err(DirError::NotFound)
    }

    fn glob(&self, _pattern: &String) -> Option<Vec<String>> {
        None
    }

    fn now_ms(&self) -> u64 {
        0
    }

    fn run_task(&self, task: Task, _input: Option<String>, stream: &ShellStream) -> TaskRun {
        if task.command[0] == "echo" {
            let output = format!("{}\n", task.command[1..].join(" "));
            let _ = stream.send(ShellStreamMessage::Output((Some(output.clone()), None)));
            TaskRun { exit_code: 0, output, interrupted: false }
        } else {
            TaskRun { exit_code: 255, output: String::new(), interrupted: false }
        }
    }

    fn write_file(&self, _file: &String, _mode: FileRedirectionType, _content: &String) -> Result<(), String> {
        Ok(())
    }
}

/// The home directory, as the session sees it.
fn home() -> String {
    match dirs::home_dir() {
        Some(path) => path.to_string_lossy().into_owned(),
        None => String::from("/"),
    }
}

/// A new session on the test host.
fn new_core(wrkdir: Option<String>, history_size: usize) -> (ShellCore, UserStream) {
    ShellCore::new(wrkdir, history_size, Box::new(Bash::new()), Box::new(TestHost))
}

/// A parser for the readline tests: a line ending with a backslash is incomplete, `bad`
/// is a bad token, and any other line returns its length.
struct LineParser;

impl ParseStatement for LineParser {
    fn parse(&self, _context: &ParseContext, statement: &String) -> Result<ShellExpression, ParserError> {
        if statement.ends_with('\\') {
            Err(ParserError::new(ParserErrorCode::Incomplete, String::from("incomplete")))
        } else if statement == "bad" {
            Err(ParserError::new(ParserErrorCode::BadToken, String::from("bad")))
        } else {
            Ok(ShellExpression { statements: vec![(ShellStatement::Return(statement.len() as u8), TaskRelation::Unrelated)] })
        }
    }
}

/// The command of an alias in an alias list.
fn lookup(alias: &Vec<(String, String)>, name: &str) -> String {
    alias.iter().find(|(k, _)| k == name).unwrap().1.clone()
}

#[test]
fn test_core_alias() {
    //Instantiate Core
    let (mut core, _): (ShellCore, UserStream) = new_core(None, 128);
    //Set alias
    core.alias_set(String::from("ll"), String::from("ls -l"));
    //Get alias
    assert_eq!(core.alias_get(&String::from("ll")).unwrap(), String::from("ls -l"));
    //Try to get unexisting alias
    assert!(core.alias_get(&String::from("foobar")).is_none());
    //Override alias
    core.alias_set(String::from("ll"), String::from("ls -l --color=auto"));
    assert_eq!(core.alias_get(&String::from("ll")).unwrap(), String::from("ls -l --color=auto"));
    //Add another alias and test get all alias
    core.alias_set(String::from("please"), String::from("sudo"));
    let alias_table: Vec<(String, String)> = core.alias_get_all();
    //Verify table
    assert_eq!(alias_table.len(), 2);
    //Test unalias
    assert!(core.unalias(&String::from("ll")).is_some());
    assert!(core.unalias(&String::from("please")).is_some());
    assert!(core.unalias(&String::from("foobar")).is_none());
    assert!(core.alias_get(&String::from("ll")).is_none());
    assert!(core.alias_get(&String::from("please")).is_none());
}

#[test]
fn test_core_functions() {
    let (mut core, _): (ShellCore, UserStream) = new_core(None, 128);
    //Get unexisting function
    assert!(core.function_get(&String::from("testfunc")).is_none());
    //Create function
    let test_function: ShellExpression = ShellExpression {
        statements: vec![(ShellStatement::Return(0), TaskRelation::Unrelated)]
    };
    //Set function
    core.function_set(String::from("testfunc"), test_function);
    //Verify function exists
    assert!(core.function_get(&String::from("testfunc")).is_some());
}

#[test]
fn test_core_history() {
    let (mut core, _): (ShellCore, UserStream) = new_core(None, 2); //@! History size => 2
    //Verify history is empty
    assert_eq!(core.history_get().len(), 0);
    //Try to get from history
    assert!(core.history_at(0).is_none());
    //Push to history
    core.history_push(String::from("cargo test"));
    assert_eq!(core.history_at(0).unwrap(), String::from("cargo test"));
    //Push another line
    core.history_push(String::from("git status"));
    //Git status is now index 0, while cargo test is index 1
    assert_eq!(core.history_at(0).unwrap(), String::from("git status"));
    assert_eq!(core.history_at(1).unwrap(), String::from("cargo test"));
    //Push another line
    core.history_push(String::from("git commit -a -m 'random commit'"));
    //Max history length has been set to 2, to there should be only two lines
    assert_eq!(core.history.len(), 2);
    assert_eq!(core.history_at(0).unwrap(), String::from("git commit -a -m 'random commit'"));
    assert_eq!(core.history_at(1).unwrap(), String::from("git status"));
    //Clear history
    core.history_clear();
    //Load history
    let mut history: VecDeque<String> = VecDeque::with_capacity(3);
    history.push_back(String::from("command 1"));
    history.push_back(String::from("command 2"));
    history.push_back(String::from("command 3"));
    core.history_load(history);
    //Length must be 2, since history size is 2
    assert_eq!(core.history.len(), 2);
    assert_eq!(core.history_at(0).unwrap(), String::from("command 2"));
    assert_eq!(core.history_at(1).unwrap(), String::from("command 1"));
}

#[test]
fn test_core_misc_reverse_search() {
    //Push some entries to the history
    let (mut core, _): (ShellCore, UserStream) = new_core(None, 64);
    core.history_push(String::from("git status"));
    core.history_push(String::from("git commit -a"));
    core.history_push(String::from("git commit README.md"));
    core.history_push(String::from("git push origin master"));
    core.history_push(String::from("ll"));
    core.history_push(String::from("cd /tmp/"));
    core.history_push(String::from("mc -e test.cpp"));
    core.history_push(String::from("g++ test.cpp -o test"));
    core.history_push(String::from("./test"));
    core.history_push(String::from("cd -"));
    //Try the reverse search with hits
    assert_eq!(core.reverse_search_hits(&String::from("git"), 0).unwrap(), String::from("git push origin master"));
    assert_eq!(core.reverse_search_hits(&String::from("git"), 1).unwrap(), String::from("git commit README.md"));
    assert_eq!(core.reverse_search_hits(&String::from("git"), 2).unwrap(), String::from("git commit -a"));
    assert_eq!(core.reverse_search_hits(&String::from("git"), 3).unwrap(), String::from("git status"));
    //Some other research with hits
    assert_eq!(core.reverse_search_hits(&String::from("commit"), 1).unwrap(), String::from("git commit -a"));
    //Try a research with hits out of range
    assert!(core.reverse_search_hits(&String::from("commit"), 3).is_none());
    //Try a research with hits of something unmatched
    assert!(core.reverse_search_hits(&String::from("foobar"), 0).is_none());
    //Try research with full stack
    let matches: Vec<String> = core.reverse_search(&String::from("git"), None).unwrap();
    assert_eq!(matches.len(), 4);
    assert_eq!(matches[0], String::from("git push origin master"));
    assert_eq!(matches[3], String::from("git status"));
    //Try research with full stack and max entries
    let matches: Vec<String> = core.reverse_search(&String::from("git"), Some(2)).unwrap();
    assert_eq!(matches.len(), 2);
    assert_eq!(matches[0], String::from("git push origin master"));
    assert_eq!(matches[1], String::from("git commit README.md"));
    //Try research with full stack of something unmatched
    assert!(core.reverse_search(&String::from("foobar"), None).is_none());
}

#[test]
fn test_core_dirs() {
    let (mut core, _): (ShellCore, UserStream) = new_core(None, 128);
    //Dirs contains only home once the object is istantiated
    assert_eq!(core.dirs().len(), 1);
    assert_eq!(core.dirs()[0], core.home_dir.clone());
    //Push directory
    core.pushd(String::from("/tmp/"));
    //Verify dirs; /tmp/ should be the first element
    assert_eq!(core.dirs().len(), 2);
    assert_eq!(core.dirs()[0], String::from("/tmp/"));
    assert_eq!(core.dirs()[1], core.home_dir.clone());
    //Popd front
    assert_eq!(core.popd_front().unwrap(), String::from("/tmp/"));
    assert_eq!(core.dirs().len(), 1);
    //Push directory
    core.pushd(String::from("/etc/"));
    //Popd back
    assert_eq!(core.popd_back().unwrap(), core.home_dir.clone());
    assert_eq!(core.dirs().len(), 1);
    assert_eq!(core.popd_back().unwrap(), String::from("/etc/"));
    //Try to pop when stack is empty
    assert!(core.popd_front().is_none());
}

#[test]
fn test_core_exit() {
    let (mut core, _): (ShellCore, UserStream) = new_core(None, 128);
    core.exit();
    assert_eq!(core.state, ShellState::Terminated);
    assert_eq!(core.user.len(), 0);
    assert_eq!(core.hostname.len(), 0);
    assert_eq!(core.home_dir, String::from(""));
    assert_eq!(core.prev_dir, String::from(""));
    assert_eq!(core.wrk_dir, String::from(""));
    assert_eq!(core.dirs.len(), 0);
}

#[test]
fn test_core_getters() {
    let (mut core, _): (ShellCore, UserStream) = new_core(None, 128);
    assert_eq!(core.get_home(), core.home_dir.clone());
    assert_eq!(core.get_prev_dir(), core.home_dir.clone());
    assert_eq!(core.get_wrkdir(), core.wrk_dir.clone());
    assert_eq!(core.get_wrkdir_pretty(), String::from("~"));
}

#[test]
fn test_core_misc_resolve_path() {
    let (mut core, _): (ShellCore, UserStream) = new_core(None, 2048);
    assert_eq!(core.resolve_path(String::from("/tmp/")), String::from("/tmp/"));
    assert_eq!(core.resolve_path(String::from("~")), core.home_dir.clone());
    let dev_home_path: String = std::path::PathBuf::from(core.home_dir.clone()).join("develop/Rust/").to_string_lossy().into_owned();
    assert_eq!(core.resolve_path(String::from("~/develop/Rust/")), dev_home_path);
}

#[test]
fn test_core_new() {
    //Instantiate Core
    let (core, _): (ShellCore, UserStream) = new_core(Some(String::from("/tmp/")), 128);
    //Verify core parameters
    assert_eq!(core.state, ShellState::Idle);
    assert_eq!(core.exit_code, 0);
    assert_eq!(core.execution_time, 0);
    assert!(core.pid.is_none());
    assert_eq!(core.hostname, whoami::hostname().unwrap_or_default());
    assert_eq!(core.user, whoami::username().unwrap_or_default());
    assert_eq!(core.wrk_dir, String::from("/tmp/"));
    assert_eq!(core.home_dir, home());
    assert_eq!(core.prev_dir, home());
    assert_eq!(core.storage.len(), 0);
    assert_eq!(core.exit_code, 0);
    assert_eq!(core.alias.len(), 0);
    assert_eq!(core.functions.len(), 0);
    assert_eq!(core.dirs.len(), 1); //Contains home
    assert_eq!(core.dirs[0], home());
    assert_eq!(core.history.len(), 0);
    assert_eq!(core.buf_in.len(), 0);
    //Test without working directory
    let (core, _): (ShellCore, UserStream) = new_core(None, 128);
    assert_eq!(core.wrk_dir, core.home_dir);
}

#[test]
fn test_core_storage() {
    let (mut core, _): (ShellCore, UserStream) = new_core(None, 128);
    //Try to get from storage a value which is not set
    assert!(core.value_get(&String::from("FOO")).is_none());
    assert!(core.storage_get(&String::from("FOO")).is_none());
    //Set a value in the storage
    core.storage_set(String::from("FOO"), String::from("BAR"));
    //Verify value is in the storage
    assert_eq!(core.value_get(&String::from("FOO")).unwrap(), String::from("BAR"));
    //Unset value
    core.value_unset(&String::from("FOO"));
    assert!(core.value_get(&String::from("FOO")).is_none());
    //Set value in the environ
    core.environ_set(String::from("MYKEY"), String::from("305"));
    assert_eq!(core.value_get(&String::from("MYKEY")).unwrap(), String::from("305"));
    //Set a value in the storage with name MYKEY
    core.storage_set(String::from("MYKEY"), String::from("SATURN"));
    //Now MYKEY, if retrieved should be SATURN
    assert_eq!(core.value_get(&String::from("MYKEY")).unwrap(), String::from("SATURN"));
    //In environ the value should be still 305
    assert_eq!(core.environ_get(&String::from("MYKEY")).unwrap(), String::from("305"));
}

#[test]
fn test_runner_new() {
    let runner: ShellRunner = ShellRunner::new();
    assert!(runner.buffer.is_none());
    assert!(runner.exit_flag.is_none());
}

#[test]
fn test_runner_alias() {
    let mut runner: ShellRunner = ShellRunner::new();
    let (mut core, ustream): (ShellCore, UserStream) = new_core(None, 128);
    //Verify alias doesn't exist
    assert!(core.alias_get(&String::from("ll")).is_none());
    //Set alias
    assert_eq!(runner.alias(&mut core, Some(String::from("ll")), Some(String::from("ls -l"))), 0);
    assert!(core.alias_get(&String::from("ll")).is_some());
    //Let's get that alias
    assert_eq!(runner.alias(&mut core, Some(String::from("ll")), None), 0);
    //We should have received the alias in the ustream
    if let ShellStreamMessage::Alias(alias) = &ustream.receive().unwrap()[0] {
        assert_eq!(lookup(alias, "ll"), String::from("ls -l"));
    } else {
        panic!("Not an Alias");
    }
    //Let's get an alias which doesn't exist
    assert_eq!(runner.alias(&mut core, Some(String::from("foobar")), None), 1);
    if let ShellStreamMessage::Error(err) = &ustream.receive().unwrap()[0] {
        assert_eq!(discriminant(err), discriminant(&ShellError::NoSuchAlias(String::from("foobar"))));
    } else {
        panic!("Not an error");
    }
    //Let's insert another alias
    assert_eq!(runner.alias(&mut core, Some(String::from("dirsize")), Some(String::from("du -hs"))), 0);
    //Let's get all aliases
    assert_eq!(runner.alias(&mut core, None, None), 0);
    if let ShellStreamMessage::Alias(alias) = &ustream.receive().unwrap()[0] {
        assert_eq!(lookup(alias, "ll"), String::from("ls -l"));
        assert_eq!(lookup(alias, "dirsize"), String::from("du -hs"));
    } else {
        panic!("Not an alias");
    }
    assert_eq!(runner.alias(&mut core, Some(String::from("grep")), Some(String::from("grep --color=auto"))), 0);
    assert_eq!(runner.unalias(&mut core, String::from("grep")), 0);
    //Try to unalias something that doesn't exist
    assert_eq!(runner.unalias(&mut core, String::from("fooooooo")), 1);
    if let ShellStreamMessage::Error(err) = &ustream.receive().unwrap()[0] {
        assert_eq!(discriminant(err), discriminant(&ShellError::NoSuchAlias(String::from("foobar"))));
    } else {
        panic!("Not an error");
    }
    //Drop ustream and fail alias get
    drop(ustream);
    assert_eq!(runner.alias(&mut core, Some(String::from("ll")), None), 0);
    assert!(runner.exit_flag.is_some());
    //Reset
    runner.exit_flag = None;
    runner.alias(&mut core, None, None);
    assert!(runner.exit_flag.is_some());
    //Reset
    runner.exit_flag = None;
    runner.alias(&mut core, Some(String::from("ll")), Some(String::from("ls -l --color=auto")));
    //Verify alias changed actually
    assert_eq!(core.alias_get(&String::from("ll")).unwrap(), String::from("ls -l --color=auto"));
    //Try to set a bad alias
    assert_eq!(runner.alias(&mut core, Some(String::from("l/l")), Some(String::from("ls -l"))), 1);
}

#[test]
fn test_runner_case() {
    let mut runner: ShellRunner = ShellRunner::new();
    let (mut core, ustream): (ShellCore, UserStream) = new_core(None, 128);
    //Let's build our case statement - In this case 2 will be matched
    let case_match: ShellExpression = ShellExpression {
        statements: vec![(ShellStatement::Value(String::from("2")), TaskRelation::Unrelated)]
    };
    let case0: ShellExpression = ShellExpression {
        statements: vec![(ShellStatement::Value(String::from("0")), TaskRelation::Unrelated)]
    };
    let case0_action: ShellExpression = ShellExpression {
        statements: vec![(ShellStatement::Return(0), TaskRelation::Unrelated)]
    };
    let case1: ShellExpression = ShellExpression {
        statements: vec![(ShellStatement::Value(String::from("0")), TaskRelation::Unrelated)]
    };
    let case1_action: ShellExpression = ShellExpression {
        statements: vec![(ShellStatement::Return(1), TaskRelation::Unrelated)]
    };
    let case2: ShellExpression = ShellExpression {
        statements: vec![(ShellStatement::Value(String::from("2")), TaskRelation::Unrelated)]
    };
    let case2_action: ShellExpression = ShellExpression {
        statements: vec![(ShellStatement::Return(2), TaskRelation::Unrelated)]
    };
    let case_any: ShellExpression = ShellExpression {
        statements: vec![(ShellStatement::Value(String::from("\\*")), TaskRelation::Unrelated)]
    };
    let case_any_action: ShellExpression = ShellExpression {
        statements: vec![(ShellStatement::Return(255), TaskRelation::Unrelated)]
    };
    let cases: Vec<(ShellExpression, ShellExpression)> = vec![(case0, case0_action), (case1, case1_action), (case2, case2_action), (case_any, case_any_action)];
    //Perform case
    //We expect 2 as rc, since the case 2 returns 2
    assert_eq!(runner.case(&mut core, case_match, cases.clone()).unwrap(), 2);
    //Let's try any case match (using value 40)
    let case_match: ShellExpression = ShellExpression {
        statements: vec![(ShellStatement::Value(String::from("40")), TaskRelation::Unrelated)]
    };
    //We expect 255 as rc, since should match any case
    assert_eq!(runner.case(&mut core, case_match, cases.clone()).unwrap(), 255);
    //Let's try an unmatched case
    let case0: ShellExpression = ShellExpression {
        statements: vec![(ShellStatement::Value(String::from("0")), TaskRelation::Unrelated)]
    };
    let case0_action: ShellExpression = ShellExpression {
        statements: vec![(ShellStatement::Return(0), TaskRelation::Unrelated)]
    };
    let cases: Vec<(ShellExpression, ShellExpression)> = vec![(case0, case0_action)];
    let case_match: ShellExpression = ShellExpression {
        statements: vec![(ShellStatement::Value(String::from("1")), TaskRelation::Unrelated)]
    };
    assert!(runner.case(&mut core, case_match, cases).is_none());
}

#[test]
fn test_runner_change_directory() {
    let mut runner: ShellRunner = ShellRunner::new();
    let (mut core, ustream): (ShellCore, UserStream) = new_core(None, 128);
    assert_eq!(runner.change_directory(&mut core, String::from("/tmp/")), 0);
    assert_eq!(core.get_wrkdir(), String::from("/tmp/"));
    //Try to change directory to not existing path
    assert_eq!(runner.change_directory(&mut core, String::from("/onett/")), 1);
    //Directory shouldn't have changed
    assert_eq!(core.get_wrkdir(), String::from("/tmp/"));
    //Verify we received an error
    if let ShellStreamMessage::Error(err) = &ustream.receive().unwrap()[0] {
        assert_eq!(discriminant(err), discriminant(&ShellError::NoSuchFileOrDirectory(String::from("/onett/"))));
    } else {
        panic!("Not an error");
    }
    //Drop ustream and change directory
    drop(ustream);
    assert_eq!(runner.change_directory(&mut core, String::from("/onett/")), 1);
    assert!(runner.exit_flag.is_some());
}

#[test]
fn test_runner_chain_task() {
    let mut runner: ShellRunner = ShellRunner::new();
    let (mut core, _): (ShellCore, UserStream) = new_core(None, 128);
    //Simple task
    let command: Vec<String> = vec![String::from("echo"), String::from("foo")];
    let mut sample_task: Task = Task::new(command, Redirection::Stdout, Redirection::Stderr);
    let command: Vec<String> = vec![String::from("echo"), String::from("bar")];
    sample_task.new_pipeline(
        command,
        Redirection::Stdout,
        Redirection::Stderr,
        TaskRelation::Unrelated,
    );
    //Chain task
    let chain: TaskChain = runner.chain_task(&core, sample_task);
    assert!(chain.task.is_some());
    assert!(chain.function.is_none());
    assert_eq!(chain.next_relation, TaskRelation::Unrelated);
    assert_eq!(chain.prev_relation, TaskRelation::Unrelated);
    assert!(chain.next.is_none());
    //@! Chain (task[2] + function + task[2])
    //Add a function to runner
    let expression: ShellExpression = ShellExpression {
        statements: vec![(ShellStatement::Return(0), TaskRelation::Unrelated)]
    };
    runner.function(&mut core, String::from("myfunc"), expression);
    let command: Vec<String> = vec![String::from("echo"), String::from("foo")];
    let mut sample_task: Task = Task::new(command, Redirection::Stdout, Redirection::Stderr);
    let command: Vec<String> = vec![String::from("echo"), String::from("bar")];
    sample_task.new_pipeline(
        command,
        Redirection::Stdout,
        Redirection::Stderr,
        TaskRelation::And, //and between echo1 and echo 2
    );
    let command: Vec<String> = vec![String::from("myfunc"), String::from("bar")];
    sample_task.new_pipeline(
        command,
        Redirection::Stdout,
        Redirection::Stderr,
        TaskRelation::And, //and between echo2 and myfunc
    );
    let command: Vec<String> = vec![String::from("cat"), String::from("/tmp/test.txt")];
    sample_task.new_pipeline(
        command,
        Redirection::Stdout,
        Redirection::Stderr,
        TaskRelation::Or, //Or between myfunc and cat
    );
    let command: Vec<String> = vec![String::from("head"), String::from("-n"), String::from("1")];
    sample_task.new_pipeline(
        command,
        Redirection::Stdout,
        Redirection::Stderr,
        TaskRelation::Pipe,
    );
    let chain: TaskChain = runner.chain_task(&core, sample_task);
    //Let's see if it's correct
    assert!(chain.task.is_some());
    assert!(chain.task.unwrap().next.is_some());
    assert!(chain.function.is_none());
    assert_eq!(chain.next_relation, TaskRelation::And);
    assert_eq!(chain.prev_relation, TaskRelation::Unrelated);
    assert!(chain.next.is_some());
    //Next is a function
    let chain: TaskChain = *chain.next.unwrap();
    assert!(chain.task.is_none());
    assert!(chain.function.is_some());
    assert_eq!(chain.function.as_ref().unwrap().args[0], String::from("myfunc"));
    assert_eq!(chain.function.as_ref().unwrap().args[1], String::from("bar"));
    assert_eq!(chain.next_relation, TaskRelation::Or);
    assert_eq!(chain.prev_relation, TaskRelation::And);
    assert!(chain.next.is_some());
    //Next is a task
    let chain: TaskChain = *chain.next.unwrap();
    assert!(chain.task.is_some());
    assert_eq!(chain.task.as_ref().unwrap().command[0], String::from("cat"));
    assert!(chain.task.as_ref().unwrap().next.is_some());
    assert!(chain.function.is_none());
    assert_eq!(chain.next_relation, TaskRelation::Unrelated);
    assert_eq!(chain.prev_relation, TaskRelation::Or);
    assert!(chain.next.is_none());
}

#[test]
fn test_runner_exit() {
    let mut runner: ShellRunner = ShellRunner::new();
    let (mut core, ustream): (ShellCore, UserStream) = new_core(None, 128);
    runner.exit(&mut core, 0);
    assert_eq!(runner.exit_flag.unwrap(), 0);
}

#[test]
fn test_runner_export() {
    let mut runner: ShellRunner = ShellRunner::new();
    let (mut core, ustream): (ShellCore, UserStream) = new_core(None, 128);
    //Simple export
    assert_eq!(runner.export(&mut core, String::from("FOO"), ShellExpression {
        statements: vec![(ShellStatement::Value(String::from("BAR")), TaskRelation::Unrelated)]
    }), 0);
    //Try bad variable name
    assert_eq!(runner.export(&mut core, String::from("5HIGH"), ShellExpression {
        statements: vec![(ShellStatement::Value(String::from("BAR")), TaskRelation::Unrelated)]
    }), 1);
    //Verify value is exported
    assert_eq!(core.value_get(&String::from("FOO")).unwrap(), String::from("BAR"));
    //Complex export (with task)
    let command: Vec<String> = vec![String::from("echo"), String::from("5")];
    let sample_task: Task = Task::new(command, Redirection::Stdout, Redirection::Stderr);
    let expression: ShellExpression = ShellExpression {
        statements: vec![(ShellStatement::Exec(sample_task), TaskRelation::Unrelated)]
    };
    assert_eq!(runner.export(&mut core, String::from("RESULT"), expression), 0);
    //Verify value is exported
    assert_eq!(core.value_get(&String::from("RESULT")).unwrap(), String::from("5"));
}

#[test]
fn test_runner_ifcond() {
    let mut runner: ShellRunner = ShellRunner::new();
    let (mut core, _): (ShellCore, UserStream) = new_core(None, 128);
    //Let's try a simple if case without else
    let if_expression: ShellExpression = ShellExpression {
        statements: vec![(ShellStatement::Return(0), TaskRelation::Unrelated)] //This is OK, since returns 0
    };
    let if_perform: ShellExpression = ShellExpression {
        statements: vec![(ShellStatement::Return(42), TaskRelation::Unrelated)]
    };
    assert_eq!(runner.ifcond(&mut core, if_expression, if_perform, None).unwrap(), 42);
    //Let's try a simple if case without else, but if condition is false
    let if_expression: ShellExpression = ShellExpression {
        statements: vec![(ShellStatement::Return(1), TaskRelation::Unrelated)] //This is Nok, since returns 1
    };
    let if_perform: ShellExpression = ShellExpression {
        statements: vec![(ShellStatement::Return(42), TaskRelation::Unrelated)]
    };
    //Exitcode will be None
    assert!(runner.ifcond(&mut core, if_expression, if_perform, None).is_none());
    //Let's try a case with else, else is performed this time
    let if_expression: ShellExpression = ShellExpression {
        statements: vec![(ShellStatement::Return(1), TaskRelation::Unrelated)] //This is Nok, since returns 1
    };
    let if_perform: ShellExpression = ShellExpression {
        statements: vec![(ShellStatement::Return(42), TaskRelation::Unrelated)]
    };
    let else_perform: ShellExpression = ShellExpression {
        statements: vec![(ShellStatement::Return(128), TaskRelation::Unrelated)]
    };
    assert_eq!(runner.ifcond(&mut core, if_expression, if_perform, Some(else_perform)).unwrap(), 128);
}

#[test]
fn test_runner_let() {
    let mut runner: ShellRunner = ShellRunner::new();
    let (mut core, _): (ShellCore, UserStream) = new_core(None, 128);
    //Quick maths
    //And
    let operator1: ShellExpression = ShellExpression {
        statements: vec![(ShellStatement::Value(String::from("32")), TaskRelation::Unrelated)]
    };
    let operator2: ShellExpression = ShellExpression {
        statements: vec![(ShellStatement::Value(String::from("34")), TaskRelation::Unrelated)]
    };
    assert_eq!(runner.let_perform(&mut core, String::from("RESULT"), operator1, MathOperator::And, operator2), 0);
    assert_eq!(core.value_get(&String::from("RESULT")).unwrap(), String::from("32"));
    //Divide
    let operator1: ShellExpression = ShellExpression {
        statements: vec![(ShellStatement::Value(String::from("64")), TaskRelation::Unrelated)]
    };
    let operator2: ShellExpression = ShellExpression {
        statements: vec![(ShellStatement::Value(String::from("32")), TaskRelation::Unrelated)]
    };
    assert_eq!(runner.let_perform(&mut core, String::from("RESULT"), operator1, MathOperator::Divide, operator2), 0);
    assert_eq!(core.value_get(&String::from("RESULT")).unwrap(), String::from("2"));
    //Divide by 0
    let operator1: ShellExpression = ShellExpression {
        statements: vec![(ShellStatement::Value(String::from("32")), TaskRelation::Unrelated)]
    };
    let operator2: ShellExpression = ShellExpression {
        statements: vec![(ShellStatement::Value(String::from("0")), TaskRelation::Unrelated)]
    };
    assert_eq!(runner.let_perform(&mut core, String::from("RESULT"), operator1, MathOperator::Divide, operator2), 1);
    //Equal
    let operator1: ShellExpression = ShellExpression {
        statements: vec![(ShellStatement::Value(String::from("16")), TaskRelation::Unrelated)]
    };
    let operator2: ShellExpression = ShellExpression {
        statements: vec![(ShellStatement::Value(String::from("16")), TaskRelation::Unrelated)]
    };
    assert_eq!(runner.let_perform(&mut core, String::from("RESULT"), operator1, MathOperator::Equal, operator2), 0);
    assert_eq!(core.value_get(&String::from("RESULT")).unwrap(), String::from("1"));
    //Equal (but not equal)
    let operator1: ShellExpression = ShellExpression {
        statements: vec![(ShellStatement::Value(String::from("32")), TaskRelation::Unrelated)]
    };
    let operator2: ShellExpression = ShellExpression {
        statements: vec![(ShellStatement::Value(String::from("34")), TaskRelation::Unrelated)]
    };
    assert_eq!(runner.let_perform(&mut core, String::from("RESULT"), operator1, MathOperator::Equal, operator2), 0);
    assert_eq!(core.value_get(&String::from("RESULT")).unwrap(), String::from("0"));
    //Module
    let operator1: ShellExpression = ShellExpression {
        statements: vec![(ShellStatement::Value(String::from("64")), TaskRelation::Unrelated)]
    };
    let operator2: ShellExpression = ShellExpression {
        statements: vec![(ShellStatement::Value(String::from("24")), TaskRelation::Unrelated)]
    };
    assert_eq!(runner.let_perform(&mut core, String::from("RESULT"), operator1, MathOperator::Module, operator2), 0);
    assert_eq!(core.value_get(&String::from("RESULT")).unwrap(), String::from("16"));
    //Multiply
    let operator1: ShellExpression = ShellExpression {
        statements: vec![(ShellStatement::Value(String::from("4")), TaskRelation::Unrelated)]
    };
    let operator2: ShellExpression = ShellExpression {
        statements: vec![(ShellStatement::Value(String::from("8")), TaskRelation::Unrelated)]
    };
    assert_eq!(runner.let_perform(&mut core, String::from("RESULT"), operator1, MathOperator::Multiply, operator2), 0);
    assert_eq!(core.value_get(&String::from("RESULT")).unwrap(), String::from("32"));
    //NotEqual
    let operator1: ShellExpression = ShellExpression {
        statements: vec![(ShellStatement::Value(String::from("2")), TaskRelation::Unrelated)]
    };
    let operator2: ShellExpression = ShellExpression {
        statements: vec![(ShellStatement::Value(String::from("8")), TaskRelation::Unrelated)]
    };
    assert_eq!(runner.let_perform(&mut core, String::from("RESULT"), operator1, MathOperator::NotEqual, operator2), 0);
    assert_eq!(core.value_get(&String::from("RESULT")).unwrap(), String::from("1"));
    //NotEqual (but equal)
    let operator1: ShellExpression = ShellExpression {
        statements: vec![(ShellStatement::Value(String::from("32")), TaskRelation::Unrelated)]
    };
    let operator2: ShellExpression = ShellExpression {
        statements: vec![(ShellStatement::Value(String::from("32")), TaskRelation::Unrelated)]
    };
    assert_eq!(runner.let_perform(&mut core, String::from("RESULT"), operator1, MathOperator::NotEqual, operator2), 0);
    assert_eq!(core.value_get(&String::from("RESULT")).unwrap(), String::from("0"));
    //Or
    let operator1: ShellExpression = ShellExpression {
        statements: vec![(ShellStatement::Value(String::from("16")), TaskRelation::Unrelated)]
    };
    let operator2: ShellExpression = ShellExpression {
        statements: vec![(ShellStatement::Value(String::from("4")), TaskRelation::Unrelated)]
    };
    assert_eq!(runner.let_perform(&mut core, String::from("RESULT"), operator1, MathOperator::Or, operator2), 0);
    assert_eq!(core.value_get(&String::from("RESULT")).unwrap(), String::from("20"));
    //Power
    let operator1: ShellExpression = ShellExpression {
        statements: vec![(ShellStatement::Value(String::from("2")), TaskRelation::Unrelated)]
    };
    let operator2: ShellExpression = ShellExpression {
        statements: vec![(ShellStatement::Value(String::from("3")), TaskRelation::Unrelated)]
    };
    assert_eq!(runner.let_perform(&mut core, String::from("RESULT"), operator1, MathOperator::Power, operator2), 0);
    assert_eq!(core.value_get(&String::from("RESULT")).unwrap(), String::from("8"));
    //Power (negative power)
    let operator1: ShellExpression = ShellExpression {
        statements: vec![(ShellStatement::Value(String::from("2")), TaskRelation::Unrelated)]
    };
    let operator2: ShellExpression = ShellExpression {
        statements: vec![(ShellStatement::Value(String::from("-4")), TaskRelation::Unrelated)]
    };
    assert_eq!(runner.let_perform(&mut core, String::from("RESULT"), operator1, MathOperator::Power, operator2), 1);
    //Shift Left
    let operator1: ShellExpression = ShellExpression {
        statements: vec![(ShellStatement::Value(String::from("4")), TaskRelation::Unrelated)]
    };
    let operator2: ShellExpression = ShellExpression {
        statements: vec![(ShellStatement::Value(String::from("8")), TaskRelation::Unrelated)]
    };
    assert_eq!(runner.let_perform(&mut core, String::from("RESULT"), operator1, MathOperator::ShiftLeft, operator2), 0);
    assert_eq!(core.value_get(&String::from("RESULT")).unwrap(), String::from("1024"));
    //Right Shift
    let operator1: ShellExpression = ShellExpression {
        statements: vec![(ShellStatement::Value(String::from("32")), TaskRelation::Unrelated)]
    };
    let operator2: ShellExpression = ShellExpression {
        statements: vec![(ShellStatement::Value(String::from("34")), TaskRelation::Unrelated)]
    };
    assert_eq!(runner.let_perform(&mut core, String::from("RESULT"), operator1, MathOperator::And, operator2), 0);
    assert_eq!(core.value_get(&String::from("RESULT")).unwrap(), String::from("32"));
    //Sum
    let operator1: ShellExpression = ShellExpression {
        statements: vec![(ShellStatement::Value(String::from("5")), TaskRelation::Unrelated)]
    };
    let operator2: ShellExpression = ShellExpression {
        statements: vec![(ShellStatement::Value(String::from("5")), TaskRelation::Unrelated)]
    };
    assert_eq!(runner.let_perform(&mut core, String::from("RESULT"), operator1, MathOperator::Sum, operator2), 0);
    assert_eq!(core.value_get(&String::from("RESULT")).unwrap(), String::from("10"));
    //Xor
    let operator1: ShellExpression = ShellExpression {
        statements: vec![(ShellStatement::Value(String::from("32")), TaskRelation::Unrelated)]
    };
    let operator2: ShellExpression = ShellExpression {
        statements: vec![(ShellStatement::Value(String::from("4")), TaskRelation::Unrelated)]
    };
    assert_eq!(runner.let_perform(&mut core, String::from("RESULT"), operator1, MathOperator::Xor, operator2), 0);
    assert_eq!(core.value_get(&String::from("RESULT")).unwrap(), String::from("36"));
}

#[test]
fn test_runner_dirs() {
    let mut runner: ShellRunner = ShellRunner::new();
    let (mut core, ustream): (ShellCore, UserStream) = new_core(None, 128);
    //Get dirs when empty
    assert_eq!(runner.dirs(&mut core), 0);
    if let ShellStreamMessage::Dirs(dirs) = &ustream.receive().unwrap()[0] {
        assert_eq!(dirs.len(), 1); //Contains home
    } else {
        panic!("Not a dirs");
    }
    //Push directory
    assert_eq!(runner.pushd(&mut core, String::from("/tmp/")), 0);
    if let ShellStreamMessage::Dirs(dirs) = &ustream.receive().unwrap()[0] {
        assert_eq!(dirs.len(), 2); //Contains home and tmp
    } else {
        panic!("Not a dirs");
    }
    //Popd
    assert_eq!(runner.popd_back(&mut core), 0);
    if let ShellStreamMessage::Dirs(dirs) = &ustream.receive().unwrap()[0] {
        assert_eq!(dirs.len(), 1); //Contains home and tmp
        assert_eq!(*dirs[0], core.get_home());
    } else {
        panic!("Not a dirs");
    }
    //You can't empty directory stack, so 1 will be returned
    assert_eq!(runner.popd_front(&mut core),1);
    runner.dirs(&mut core);
    if let ShellStreamMessage::Dirs(dirs) = &ustream.receive().unwrap()[0] {
        assert_eq!(dirs.len(), 1); //Contains still one
    } else {
        panic!("Not a dirs");
    }
}

#[test]
fn test_runner_read() {
    let mut runner: ShellRunner = ShellRunner::new();
    let (mut core, ustream): (ShellCore, UserStream) = new_core(None, 128);
    //Send input before read, otherwise will block
    assert!(ustream.send(UserStreamMessage::Input(String::from("HI_THERE"))));
    //Read
    assert_eq!(runner.read(&mut core, Some(String::from("type something")), Some(5), Some(String::from("OUTPUT"))), 0);
    //Prompt is shown
    if let ShellStreamMessage::Output((stdout, stderr)) = &ustream.receive().unwrap()[0] {
        //Must be prompt
        assert_eq!(*stdout.as_ref().unwrap(), String::from("type something"));
    } else {
        panic!("Not an output");
    }
    //Get output
    assert_eq!(core.value_get(&String::from("OUTPUT")).unwrap(), String::from("HI_TH")); //Max size is 5, do you remember?
    //Let's try without option now
    assert!(ustream.send(UserStreamMessage::Input(String::from("HI_THERE"))));
    runner.read(&mut core, None, None, None);
    //Prompt is shown
    if let ShellStreamMessage::Output((stdout, stderr)) = &ustream.receive().unwrap()[0] {
        //Must be prompt
        assert_eq!(*stdout.as_ref().unwrap(), String::from(""));
    } else {
        panic!("Not an output");
    }
    assert_eq!(core.value_get(&String::from("REPLY")).unwrap(), String::from("HI_THERE")); //This time will be stored in reply
    //Let's try terminate, kill and other stuff
    core.value_unset(&String::from("REPLY"));
    assert!(ustream.send(UserStreamMessage::Kill));
    assert_eq!(runner.read(&mut core, None, None, None), 1);
    //Nothing to display
    assert!(core.value_get(&String::from("REPLY")).is_none());
    assert!(ustream.send(UserStreamMessage::Interrupt));
    assert_eq!(runner.read(&mut core, None, None, None), 1);
    //Nothing to display
    assert!(core.value_get(&String::from("REPLY")).is_none());
    assert!(ustream.send(UserStreamMessage::Signal(UnixSignal::Sigint)));
    assert_eq!(runner.read(&mut core, None, None, None), 1);
    //Nothing to display
    assert!(core.value_get(&String::from("REPLY")).is_none());
}

#[test]
fn test_runner_set() {
    let mut runner: ShellRunner = ShellRunner::new();
    let (mut core, ustream): (ShellCore, UserStream) = new_core(None, 128);
    //Simple export
    assert_eq!(runner.set(&mut core, String::from("FOO"), ShellExpression {
        statements: vec![(ShellStatement::Value(String::from("BAR")), TaskRelation::Unrelated)]
    }), 0);
    assert_eq!(runner.set(&mut core, String::from("5HIGH"), ShellExpression {
        statements: vec![(ShellStatement::Value(String::from("BAR")), TaskRelation::Unrelated)]
    }), 1);
    //Verify value is exported
    assert_eq!(core.value_get(&String::from("FOO")).unwrap(), String::from("BAR"));
    //Complex export (with task)
    let command: Vec<String> = vec![String::from("echo"), String::from("5")];
    let sample_task: Task = Task::new(command, Redirection::Stdout, Redirection::Stderr);
    let expression: ShellExpression = ShellExpression {
        statements: vec![(ShellStatement::Exec(sample_task), TaskRelation::Unrelated)]
    };
    assert_eq!(runner.set(&mut core, String::from("RESULT"), expression), 0);
    //Verify value is exported
    assert_eq!(core.value_get(&String::from("RESULT")).unwrap(), String::from("5"));
}

#[test]
fn test_runner_function() {
    //Instantiate an expression
    let statements: Vec<(ShellStatement, TaskRelation)> = vec![(ShellStatement::Exit(0), TaskRelation::Unrelated)];
    let expression: ShellExpression = ShellExpression {
        statements: statements
    };
    //Instantiate function
    let argv: Vec<String> = vec![String::from("hi")];
    let function: Function = Function::new(expression, argv, Redirection::Stdout);
    assert_eq!(function.redirection, Redirection::Stdout);
    assert_eq!(function.expression.statements.len(), 1);
    assert_eq!(function.args.len(), 1);
    assert_eq!(discriminant(&function.expression.statements[0].0), discriminant(&ShellStatement::Exit(0)));
}

#[test]
fn test_runner_chain() {
    //Instantiate an expression
    let statements: Vec<(ShellStatement, TaskRelation)> = vec![(ShellStatement::Exit(0), TaskRelation::Unrelated)];
    let expression: ShellExpression = ShellExpression {
        statements: statements
    };
    //Instantiate function
    let argv: Vec<String> = vec![String::from("hi")];
    let function: Function = Function::new(expression, argv, Redirection::Stdout);
    let mut chain: TaskChain = TaskChain::new(None, Some(function), TaskRelation::Unrelated);
    //Verify constructor
    assert_eq!(chain.prev_relation, TaskRelation::Unrelated);
    assert_eq!(chain.next_relation, TaskRelation::Unrelated);
    assert!(chain.next.is_none());
    assert!(chain.function.is_some());
    assert!(chain.task.is_none());
    //Prepare stuff to chain a new object
    let expression: ShellExpression = ShellExpression {
        statements: vec![(ShellStatement::Value(String::from("BAR")), TaskRelation::Unrelated)]
    };
    let statements: Vec<(ShellStatement, TaskRelation)> = vec![(ShellStatement::SetValue(String::from("FOO"), expression), TaskRelation::Unrelated)];
    let expression: ShellExpression = ShellExpression {
        statements: statements
    };
    let argv: Vec<String> = vec![String::from("hi")];
    let function: Function = Function::new(expression, argv, Redirection::Stdout);
    //Chain a new function
    chain.chain(None, Some(function), TaskRelation::And);
    assert_eq!(chain.next_relation, TaskRelation::And);
    assert_eq!(chain.prev_relation, TaskRelation::Unrelated);
    assert!(chain.next.is_some());
    //Verify next
    let next: &TaskChain = chain.next.as_ref().unwrap();
    assert!(next.function.is_some());
    assert!(next.task.is_none());
    assert_eq!(next.prev_relation, TaskRelation::And);
    assert_eq!(next.next_relation, TaskRelation::Unrelated);
    assert!(next.next.is_none());
    //Prepare to chain a 3rd element
    let statements: Vec<(ShellStatement, TaskRelation)> = vec![(ShellStatement::Read(None, None, None), TaskRelation::Unrelated)];
    let expression: ShellExpression = ShellExpression {
        statements: statements
    };
    let argv: Vec<String> = vec![String::from("hi")];
    let function: Function = Function::new(expression, argv, Redirection::Stdout);
    //Chain a 3rd element
    chain.chain(None, Some(function), TaskRelation::Or);
    let next: &TaskChain = chain.next.as_ref().unwrap();
    //Check if the relation between the 1st and the 2nd has been preserved
    assert_eq!(chain.next_relation, TaskRelation::And);
    assert_eq!(chain.prev_relation, TaskRelation::Unrelated);
    assert!(chain.next.is_some());
    //Okay, now verify the relation between the 2nd and the 3rd
    assert_eq!(next.prev_relation, TaskRelation::And);
    assert_eq!(next.next_relation, TaskRelation::Or); //NOTE: this was Unrelated before
    assert!(next.next.is_some()); //Now is some
    let next: &TaskChain = next.next.as_ref().unwrap();
    //Verify 3rd block
    assert!(next.function.is_some());
    assert!(next.task.is_none());
    assert_eq!(next.prev_relation, TaskRelation::Or);
    assert_eq!(next.next_relation, TaskRelation::Unrelated);
    assert!(next.next.is_none());
}

#[test]
fn session_history_keeps_newest_first_within_capacity() {
    let (mut core, _ustream) = new_core(None, 3);
    for i in 0..10 {
        core.history_push(format!("cmd {}", i));
        assert!(core.history_get().len() <= 3);
        assert_eq!(core.history_at(0).unwrap(), format!("cmd {}", i));
    }
    assert_eq!(core.history_at(2).unwrap(), String::from("cmd 7"));
    assert!(core.history_at(3).is_none());
}

#[test]
fn session_history_of_size_zero_keeps_last_entry() {
    let (mut core, _ustream) = new_core(None, 0);
    core.history_push(String::from("a"));
    core.history_push(String::from("b"));
    assert_eq!(core.history_get().len(), 1);
    assert_eq!(core.history_at(0).unwrap(), String::from("b"));
}

#[test]
fn session_reverse_search_with_zero_maximum() {
    let (mut core, _ustream) = new_core(None, 8);
    core.history_push(String::from("git status"));
    core.history_push(String::from("ls"));
    // the newest entry does not match: the search stops at once
    assert!(core.reverse_search(&String::from("git"), Some(0)).is_none());
    core.history_push(String::from("git log"));
    // the newest entry matches: the count passes the maximum and the search goes on
    assert_eq!(core.reverse_search(&String::from("git"), Some(0)).unwrap().len(), 2);
}

#[test]
fn session_storage_shadows_environment() {
    let (mut core, _ustream) = new_core(None, 8);
    assert_eq!(core.value_get(&String::from("SHELL_CORE_TEST")).unwrap(), String::from("1"));
    assert!(core.environ_set(String::from("MYKEY"), String::from("305")));
    assert_eq!(core.value_get(&String::from("MYKEY")).unwrap(), String::from("305"));
    assert!(core.storage_set(String::from("MYKEY"), String::from("SATURN")));
    assert_eq!(core.value_get(&String::from("MYKEY")).unwrap(), String::from("SATURN"));
    assert_eq!(core.environ_get(&String::from("MYKEY")).unwrap(), String::from("305"));
    core.value_unset(&String::from("MYKEY"));
    assert!(core.value_get(&String::from("MYKEY")).is_none());
    assert!(!core.storage_set(String::from("5HIGH"), String::from("x")));
    assert!(!core.environ_set(String::from("A-B"), String::from("x")));
}

#[test]
fn session_pretty_wrkdir_and_paths() {
    let (mut core, _ustream) = new_core(None, 8);
    assert_eq!(core.get_wrkdir_pretty(), String::from("~"));
    assert!(core.change_directory(String::from("/tmp/")).is_ok());
    assert_eq!(core.get_wrkdir_pretty(), String::from("/tmp/"));
    assert_eq!(core.get_prev_dir(), home());
    assert_eq!(core.resolve_path(String::from("/abs")), String::from("/abs"));
    assert_eq!(core.resolve_path(String::from("~")), home());
    assert_eq!(
        core.change_directory(String::from("/pippoland/")).err().unwrap(),
        ShellError::NoSuchFileOrDirectory(String::from("/pippoland/"))
    );
    assert_eq!(core.get_wrkdir(), String::from("/tmp/"));
}

#[test]
fn session_pushd_replaces_front_when_full() {
    let (mut core, _ustream) = new_core(None, 8);
    for i in 0..300 {
        core.pushd(format!("/d{}", i));
        assert!(core.dirs().len() < 255);
    }
    assert_eq!(core.dirs().len(), 254);
    assert_eq!(core.dirs()[0], String::from("/d299"));
    assert_eq!(core.dirs()[1], String::from("/d251"));
}

#[test]
fn session_readline_waits_on_incomplete_input() {
    let (mut core, _ustream) = ShellCore::new(None, 8, Box::new(LineParser), Box::new(TestHost));
    let err = core.readline(String::from("abc\\")).err().unwrap();
    assert!(matches!(err, ShellError::Parser(e) if e.code == ParserErrorCode::Incomplete));
    assert_eq!(core.state, ShellState::Waiting);
    assert_eq!(core.history_get().len(), 0);
    // the buffered input comes first
    assert_eq!(core.readline(String::from("de")).unwrap(), 6);
    assert_eq!(core.state, ShellState::Idle);
    assert_eq!(core.value_get(&String::from("?")).unwrap(), String::from("6"));
    assert_eq!(core.history_at(0).unwrap(), String::from("abc\\de"));
    let err = core.readline(String::from("bad")).err().unwrap();
    assert!(matches!(err, ShellError::Parser(e) if e.code == ParserErrorCode::BadToken));
    assert_eq!(core.history_at(0).unwrap(), String::from("bad"));
    assert_eq!(core.state, ShellState::Idle);
    core.state = ShellState::Running;
    assert_eq!(core.readline(String::from("x")).err().unwrap(), ShellError::ShellNotInIdle);
    assert_eq!(core.history_at(0).unwrap(), String::from("bad"));
}

#[test]
fn session_eval_stores_status() {
    let (mut core, _ustream) = new_core(None, 8);
    let rc = core.eval(ShellExpression { statements: vec![(ShellStatement::Return(7), TaskRelation::Unrelated)] });
    assert_eq!(rc, 7);
    assert_eq!(core.value_get(&String::from("status")).unwrap(), String::from("7"));
    assert_eq!(core.value_get(&String::from("?")).unwrap(), String::from("7"));
}

#[test]
fn session_source_reports_missing_file() {
    let (mut core, _ustream) = new_core(None, 8);
    assert_eq!(
        core.source(String::from("/nofile.sh")).err().unwrap(),
        ShellError::NoSuchFileOrDirectory(String::from("/nofile.sh"))
    );
}

#[test]
fn runner_let_wraps_and_divides_toward_zero() {
    let mut runner = ShellRunner::new();
    let (mut core, _ustream) = new_core(None, 8);
    let value = |s: &str| ShellExpression { statements: vec![(ShellStatement::Value(String::from(s)), TaskRelation::Unrelated)] };
    assert_eq!(runner.let_perform(&mut core, String::from("R"), value("-7"), MathOperator::Divide, value("2")), 0);
    assert_eq!(core.value_get(&String::from("R")).unwrap(), String::from("-3"));
    assert_eq!(runner.let_perform(&mut core, String::from("R"), value("-7"), MathOperator::Module, value("2")), 0);
    assert_eq!(core.value_get(&String::from("R")).unwrap(), String::from("-1"));
    assert_eq!(runner.let_perform(&mut core, String::from("R"), value("9223372036854775807"), MathOperator::Sum, value("1")), 0);
    assert_eq!(core.value_get(&String::from("R")).unwrap(), String::from("-9223372036854775808"));
    assert_eq!(runner.let_perform(&mut core, String::from("R"), value("-9223372036854775808"), MathOperator::Divide, value("-1")), 0);
    assert_eq!(core.value_get(&String::from("R")).unwrap(), String::from("-9223372036854775808"));
    assert_eq!(runner.let_perform(&mut core, String::from("R"), value("abc"), MathOperator::Sum, value("4")), 0);
    assert_eq!(core.value_get(&String::from("R")).unwrap(), String::from("4"));
    assert_eq!(runner.let_perform(&mut core, String::from("R"), value("3"), MathOperator::Power, value("4")), 0);
    assert_eq!(core.value_get(&String::from("R")).unwrap(), String::from("81"));
    assert_eq!(runner.let_perform(&mut core, String::from("R"), value("1"), MathOperator::ShiftLeft, value("65")), 0);
    assert_eq!(core.value_get(&String::from("R")).unwrap(), String::from("2"));
    assert_eq!(runner.let_perform(&mut core, String::from("R"), value("5"), MathOperator::Module, value("0")), 1);
    assert_eq!(runner.let_perform(&mut core, String::from("5R"), value("5"), MathOperator::Sum, value("0")), 1);
}

#[test]
fn runner_eval_value_expands_variables() {
    let runner = ShellRunner::new();
    let (mut core, _ustream) = new_core(None, 8);
    assert!(core.storage_set(String::from("KEYTEST1"), String::from("BAR")));
    assert_eq!(runner.eval_value(&core, String::from("$NOKEY")), String::from(""));
    assert_eq!(runner.eval_value(&core, String::from("${NOKEY}")), String::from(""));
    assert_eq!(runner.eval_value(&core, String::from("$KEYTEST1")), String::from("BAR"));
    assert_eq!(runner.eval_value(&core, String::from("${KEYTEST1}")), String::from("BAR"));
    assert_eq!(runner.eval_value(&core, String::from("plain")), String::from("plain"));
    assert_eq!(runner.eval_value(&core, String::from("a\\*")), String::from("a\\*"));
    assert_eq!(runner.glob_pattern(&core, &String::from("*.txt")).unwrap(), format!("{}/*.txt", home()));
    assert_eq!(runner.glob_pattern(&core, &String::from("/x/?")).unwrap(), String::from("/x/?"));
}

#[test]
fn runner_user_messages_stop_the_expression() {
    let mut runner = ShellRunner::new();
    let (mut core, ustream) = new_core(None, 8);
    assert!(ustream.send(UserStreamMessage::Signal(UnixSignal::Sigterm)));
    let expr = ShellExpression {
        statements: vec![
            (ShellStatement::Value(String::from("a")), TaskRelation::Unrelated),
            (ShellStatement::Exit(0), TaskRelation::Unrelated),
        ],
    };
    let (rc, _) = runner.run_expression(&mut core, expr);
    assert_eq!(rc, 15);
    let mut runner = ShellRunner::new();
    runner.apply_user_message(&UserStreamMessage::Input(String::from("ab")));
    runner.apply_user_message(&UserStreamMessage::Input(String::from("c")));
    assert_eq!(runner.buffer.clone().unwrap(), String::from("abc"));
    assert!(runner.exit_flag.is_none());
    runner.apply_user_message(&UserStreamMessage::Kill);
    assert_eq!(runner.exit_flag, Some(9));
    assert!(matches!(task_control(UserStreamMessage::Interrupt), TaskControl::Interrupt));
    assert!(matches!(task_control(UserStreamMessage::Kill), TaskControl::Forward(TaskMessageTx::Kill)));
}

#[test]
fn runner_control_statements() {
    let mut runner = ShellRunner::new();
    let (mut core, _ustream) = new_core(None, 8);
    let expr = ShellExpression {
        statements: vec![
            (ShellStatement::Value(String::from("a")), TaskRelation::Unrelated),
            (ShellStatement::Break, TaskRelation::Unrelated),
            (ShellStatement::Return(4), TaskRelation::Unrelated),
        ],
    };
    assert_eq!(runner.run(&mut core, expr), 0);
    let expr = ShellExpression {
        statements: vec![
            (ShellStatement::Value(String::from("a")), TaskRelation::Unrelated),
            (ShellStatement::Continue, TaskRelation::Unrelated),
            (ShellStatement::Return(4), TaskRelation::Unrelated),
        ],
    };
    assert_eq!(runner.run(&mut core, expr), 4);
    let empty = ShellExpression { statements: vec![] };
    assert_eq!(runner.run_expression(&mut core, empty), (0, String::new()));
}

#[test]
fn runner_exec_chains_by_relation() {
    let mut runner = ShellRunner::new();
    let (mut core, _ustream) = new_core(None, 8);
    let mut task = Task::new(vec![String::from("nosuchcommand")], Redirection::Stdout, Redirection::Stderr);
    task.new_pipeline(vec![String::from("echo"), String::from("x")], Redirection::Stdout, Redirection::Stderr, TaskRelation::And);
    // the failing block and the one after `&&` form one pipeline for the task manager
    let (rc, _) = runner.exec(&mut core, task);
    assert_eq!(rc, 255);
    assert!(runner.function(&mut core, String::from("f"), ShellExpression { statements: vec![(ShellStatement::Return(1), TaskRelation::Unrelated)] }) == 0);
    let mut task = Task::new(vec![String::from("f")], Redirection::Stdout, Redirection::Stderr);
    task.new_pipeline(vec![String::from("echo"), String::from("y")], Redirection::Stdout, Redirection::Stderr, TaskRelation::And);
    let (rc, out) = runner.exec(&mut core, task);
    assert_eq!(rc, 1);
    assert_eq!(out, String::from(""));
    let mut task = Task::new(vec![String::from("f")], Redirection::Stdout, Redirection::Stderr);
    task.new_pipeline(vec![String::from("echo"), String::from("z")], Redirection::Stdout, Redirection::Stderr, TaskRelation::Or);
    let (rc, out) = runner.exec(&mut core, task);
    assert_eq!(rc, 0);
    assert_eq!(out, String::from("z"));
}

#[test]
fn runner_let_store_uses_printed_operands() {
    let mut runner = ShellRunner::new();
    let (mut core, ustream) = new_core(None, 8);
    assert_eq!(runner.let_store(&mut core, String::from("RESULT"), &String::from("40"), MathOperator::Sum, &String::from("2")), 0);
    assert_eq!(core.storage_get(&String::from("RESULT")).unwrap(), String::from("42"));
    //Not a variable name: nothing is stored
    assert_eq!(runner.let_store(&mut core, String::from("4X"), &String::from("40"), MathOperator::Sum, &String::from("2")), 1);
    assert!(core.storage_get(&String::from("4X")).is_none());
    //Division by zero is reported and nothing is stored
    assert_eq!(runner.let_store(&mut core, String::from("OTHER"), &String::from("1"), MathOperator::Divide, &String::from("0")), 1);
    assert!(core.storage_get(&String::from("OTHER")).is_none());
    let inbox = ustream.receive().unwrap();
    assert_eq!(inbox.len(), 1);
    assert!(matches!(inbox[0], ShellStreamMessage::Error(ShellError::Math(_))));
}

#[test]
fn runner_read_reply_stores_input_or_stops() {
    let mut runner = ShellRunner::new();
    let (mut core, _ustream) = new_core(None, 8);
    let input = UserStreamMessage::Input(String::from("HELLO"));
    assert_eq!(runner.read_reply(&mut core, String::from("ANSWER"), Some(3), Some(&input)), 0);
    assert_eq!(core.storage_get(&String::from("ANSWER")).unwrap(), String::from("HEL"));
    assert!(runner.exit_flag.is_none());
    assert_eq!(runner.read_reply(&mut core, String::from("NEXT"), None, Some(&UserStreamMessage::Kill)), 1);
    assert!(core.storage_get(&String::from("NEXT")).is_none());
    assert!(runner.exit_flag.is_none());
    assert_eq!(runner.read_reply(&mut core, String::from("NEXT"), None, None), 1);
    assert_eq!(runner.exit_flag, Some(255));
}

#[test]
fn runner_expression_stops_at_return_and_break() {
    let mut runner = ShellRunner::new();
    let (mut core, _ustream) = new_core(None, 8);
    let expression = ShellExpression {
        statements: vec![
            (ShellStatement::Continue, TaskRelation::Unrelated),
            (ShellStatement::Return(7), TaskRelation::Unrelated),
            (ShellStatement::Return(9), TaskRelation::Unrelated),
        ],
    };
    assert_eq!(runner.run_expression(&mut core, expression), (7, String::new()));
    let expression = ShellExpression {
        statements: vec![
            (ShellStatement::Break, TaskRelation::Unrelated),
            (ShellStatement::Alias(Some(String::from("ll")), Some(String::from("ls -l"))), TaskRelation::Unrelated),
        ],
    };
    assert_eq!(runner.run_expression(&mut core, expression), (0, String::new()));
    assert!(core.alias_get(&String::from("ll")).is_none());
}

#[test]
fn runner_chain_task_makes_one_function_block_per_call() {
    let mut runner = ShellRunner::new();
    let (mut core, _ustream) = new_core(None, 8);
    let body = ShellExpression { statements: vec![(ShellStatement::Return(0), TaskRelation::Unrelated)] };
    assert_eq!(runner.function(&mut core, String::from("first"), body.clone()), 0);
    assert_eq!(runner.function(&mut core, String::from("second"), body), 0);
    //An alias that resolves to a function counts as a call
    assert!(core.alias_set(String::from("again"), String::from("second --twice")));
    let mut task = Task::new(vec![String::from("first")], Redirection::Stdout, Redirection::Stderr);
    task.new_pipeline(vec![String::from("echo"), String::from("a")], Redirection::Stdout, Redirection::Stderr, TaskRelation::Pipe);
    task.new_pipeline(vec![String::from("echo"), String::from("b")], Redirection::Stdout, Redirection::Stderr, TaskRelation::And);
    task.new_pipeline(vec![String::from("again")], Redirection::Stdout, Redirection::Stderr, TaskRelation::Or);
    let chain = runner.chain_task(&core, task);
    let mut kinds: Vec<bool> = Vec::new();
    let mut block: Option<&TaskChain> = Some(&chain);
    while let Some(b) = block {
        kinds.push(b.function.is_some());
        block = b.next.as_deref();
    }
    assert_eq!(kinds.iter().filter(|k| **k).count(), 2);
    assert_eq!(kinds, vec![true, false, true]);
}

#[test]
fn runner_foreach_removes_its_key() {
    let mut runner = ShellRunner::new();
    let (mut core, _ustream) = new_core(None, 8);
    let words = ShellExpression { statements: vec![(ShellStatement::Value(String::from("one two")), TaskRelation::Unrelated)] };
    let body = ShellExpression { statements: vec![(ShellStatement::Return(3), TaskRelation::Unrelated)] };
    assert_eq!(runner.foreach(&mut core, String::from("WORD"), words, body), Some(3));
    assert!(core.value_get(&String::from("WORD")).is_none());
    //A failing condition gives 1
    let failing = ShellExpression { statements: vec![(ShellStatement::Return(4), TaskRelation::Unrelated)] };
    let body = ShellExpression { statements: vec![(ShellStatement::Return(3), TaskRelation::Unrelated)] };
    assert_eq!(runner.foreach(&mut core, String::from("WORD"), failing, body), Some(1));
}

#[test]
fn runner_single_builtin_statement_acts_on_the_session() {
    let mut runner = ShellRunner::new();
    let (mut core, _ustream) = new_core(None, 8);
    let one = |statement: ShellStatement| ShellExpression { statements: vec![(statement, TaskRelation::Unrelated)] };
    //Alias
    let (rc, _) = runner.run_expression(&mut core, one(ShellStatement::Alias(Some(String::from("ll")), Some(String::from("ls -l")))));
    assert_eq!(rc, 0);
    assert_eq!(core.alias_get(&String::from("ll")).unwrap(), String::from("ls -l"));
    //Unalias of an alias that does not exist
    let (rc, _) = runner.run_expression(&mut core, one(ShellStatement::Unalias(String::from("nope"))));
    assert_eq!(rc, 1);
    //Pushd then popd
    let before: usize = core.dirs().len();
    let (rc, _) = runner.run_expression(&mut core, one(ShellStatement::Pushd(String::from("/tmp/"))));
    assert_eq!(rc, 0);
    assert_eq!(core.dirs().len(), before + 1);
    assert_eq!(core.dirs()[0], String::from("/tmp/"));
    let (rc, _) = runner.run_expression(&mut core, one(ShellStatement::PopdFront));
    assert_eq!(rc, 0);
    assert_eq!(core.dirs().len(), before);
    //Function with a name that is not valid
    let body = ShellExpression { statements: vec![(ShellStatement::Return(0), TaskRelation::Unrelated)] };
    let (rc, _) = runner.run_expression(&mut core, one(ShellStatement::Function(String::from("bad/name"), body)));
    assert_eq!(rc, 1);
    assert!(core.function_get(&String::from("bad/name")).is_none());
}

#[test]
fn runner_branches_on_immediate_codes() {
    let mut runner = ShellRunner::new();
    let (mut core, _ustream) = new_core(None, 8);
    let ret = |c: u8| ShellExpression { statements: vec![(ShellStatement::Return(c), TaskRelation::Unrelated)] };
    let value = |v: &str| ShellExpression { statements: vec![(ShellStatement::Value(String::from(v)), TaskRelation::Unrelated)] };
    //if: a failing condition runs the else branch, or nothing
    assert_eq!(runner.ifcond(&mut core, ret(1), ret(2), Some(ret(3))), Some(3));
    assert_eq!(runner.ifcond(&mut core, ret(1), ret(2), None), None);
    assert_eq!(runner.ifcond(&mut core, ret(0), ret(2), Some(ret(3))), Some(2));
    //case: the first branch whose pattern prints what the value prints, or `\*`
    assert_eq!(runner.case(&mut core, value("foo"), vec![(value("foo"), ret(4))]), Some(4));
    assert_eq!(runner.case(&mut core, value("foo"), vec![(value("\\*"), ret(5))]), Some(5));
    assert_eq!(runner.case(&mut core, value("foo"), vec![(value("bar"), ret(6))]), None);
    //while: a failing condition never runs the body
    assert_eq!(runner.while_loop(&mut core, ret(1), ret(9)), 0);
    //let: operands are what the expressions print
    assert_eq!(runner.let_perform(&mut core, String::from("SUM"), value("40"), MathOperator::Sum, value("2")), 0);
    assert_eq!(core.storage_get(&String::from("SUM")).unwrap(), String::from("42"));
}

#[test]
fn session_readline_buffers_each_input_once() {
    let (mut core, _ustream) = ShellCore::new(None, 8, Box::new(LineParser), Box::new(TestHost));
    assert!(core.readline(String::from("a\\")).is_err());
    assert!(core.readline(String::from("b\\")).is_err());
    assert_eq!(core.buf_in, String::from("a\\b\\"));
    assert_eq!(core.readline(String::from("c")).unwrap(), 5);
    assert_eq!(core.history_at(0).unwrap(), String::from("a\\b\\c"));
    //flush empties the buffer and nothing else
    core.flush();
    assert_eq!(core.buf_in, String::new());
    assert_eq!(core.state, ShellState::Idle);
}

#[test]
fn test_bash_parser_export() {
    let (mut core, _): (ShellCore, UserStream) = new_core(None, 32);
    let parser: Bash = Bash::new();
    //Export two values first
    core.environ_set(String::from("FOO"), String::from("1"));
    core.environ_set(String::from("BAR"), String::from("2"));
    let context: ParseContext = core.parse_context();
    //No args
    let mut input: VecDeque<String> = parser.readline(&String::from("")).unwrap();
    assert!(parser.parse_export(&context, &mut input).is_ok()); //Print environment, but it's too long to be compared, it's variable too
    assert_eq!(input.len(), 0); //Should be empty
    //Print argument
    let mut input: VecDeque<String> = parser.readline(&String::from("-p")).unwrap();
    assert!(parser.parse_export(&context, &mut input).is_ok()); //Print environment, but it's too long to be compared, it's variable too
    assert_eq!(input.len(), 0); //Should be empty
    //Help argument
    let mut input: VecDeque<String> = parser.readline(&String::from("-h")).unwrap();
    assert!(parser.parse_export(&context, &mut input).unwrap() == ShellStatement::Output(Some(String::from("export\n\nOptions:\n    -p, --print         Print all exported variables\n    -h, --help          Display help\n")), None)); //Prints help
    assert_eq!(input.len(), 0); //Should be empty
}

#[test]
fn test_bash_parser_export_listing_and_assignment() {
    let (mut core, _): (ShellCore, UserStream) = new_core(None, 32);
    let parser: Bash = Bash::new();
    core.environ_set(String::from("FOO"), String::from("1"));
    let context: ParseContext = core.parse_context();
    //The listing holds a declaration per variable
    let mut input: VecDeque<String> = parser.readline(&String::from("-p; cd")).unwrap();
    match parser.parse_export(&context, &mut input).unwrap() {
        ShellStatement::Output(Some(text), None) => assert!(text.contains("declare -x FOO=1\n")),
        _ => panic!("export -p lists the variables"),
    }
    assert_eq!(input, vec![String::from(";"), String::from("cd")]);
    //An assignment exports the name before the first unescaped '='
    let mut input: VecDeque<String> = parser.readline(&String::from("BAZ=abc")).unwrap();
    match parser.parse_export(&context, &mut input).unwrap() {
        ShellStatement::Export(key, _) => assert_eq!(key, String::from("BAZ")),
        _ => panic!("export NAME=VALUE exports NAME"),
    }
    //An unknown option
    let mut input: VecDeque<String> = parser.readline(&String::from("--bad")).unwrap();
    assert!(parser.parse_export(&context, &mut input).unwrap() == ShellStatement::Output(None, Some(String::from("bash: Export invalid option: Unrecognized option: 'bad'"))));
    //A context of its own: the listing in order
    let own = ParseContext {
        home_dir: String::from("/home/user"),
        prev_dir: String::from("/"),
        environ: vec![(String::from("A"), String::from("x")), (String::from("B"), String::from("y"))],
    };
    let mut input: VecDeque<String> = parser.readline(&String::from("")).unwrap();
    assert!(parser.parse_export(&own, &mut input).unwrap() == ShellStatement::Output(Some(String::from("declare -x A=x\ndeclare -x B=y\n")), None));
}

#[test]
fn test_bash_parser_history() {
    let (core, _): (ShellCore, UserStream) = new_core(None, 32);
    let parser: Bash = Bash::new();
    let context: ParseContext = core.parse_context();
    //No args
    let mut input: VecDeque<String> = parser.readline(&String::from("")).unwrap();
    assert!(parser.parse_history(&context, &mut input).unwrap() == ShellStatement::History(HistoryOptions::Print));
    assert_eq!(input.len(), 0);
    //Append history
    let history: String = format!("{}/.bash_history", core.get_home());
    let mut input: VecDeque<String> = parser.readline(&String::from("-a ~/.bash_history")).unwrap();
    assert!(parser.parse_history(&context, &mut input).unwrap() == ShellStatement::History(HistoryOptions::Write(history.clone(), false)));
    assert_eq!(input.len(), 0);
    //Clear history
    let mut input: VecDeque<String> = parser.readline(&String::from("-c")).unwrap();
    assert!(parser.parse_history(&context, &mut input).unwrap() == ShellStatement::History(HistoryOptions::Clear));
    assert_eq!(input.len(), 0);
    //Delete history index
    let mut input: VecDeque<String> = parser.readline(&String::from("-d 42")).unwrap();
    assert!(parser.parse_history(&context, &mut input).unwrap() == ShellStatement::History(HistoryOptions::Del(42)));
    assert_eq!(input.len(), 0);
    //Read the history
    let mut input: VecDeque<String> = parser.readline(&String::from("-r ~/.bash_history")).unwrap();
    assert!(parser.parse_history(&context, &mut input).unwrap() == ShellStatement::History(HistoryOptions::Read(history.clone())));
    assert_eq!(input.len(), 0);
    //Write history
    let mut input: VecDeque<String> = parser.readline(&String::from("-w ~/.bash_history")).unwrap();
    assert!(parser.parse_history(&context, &mut input).unwrap() == ShellStatement::History(HistoryOptions::Write(history.clone(), true)));
    assert_eq!(input.len(), 0);
    //Help
    let mut input: VecDeque<String> = parser.readline(&String::from("-h")).unwrap();
    assert!(parser.parse_history(&context, &mut input).unwrap() == ShellStatement::Output(Some(String::from("history\n\nOptions:\n    -a <file>           Append the new history lines to the history file\n    -c                  Clear the history list. This may be combined with the\n                        other options to replace the history list completely.\n    -d <offset>         Delete the history entry at position offset\n    -r <file>           Read the history file and append its contents to the\n                        history list.\n    -w <file>           Write out the current history list to the history\n                        file.\n    -h, --help          Display help\n")), None));
    assert_eq!(input.len(), 0);
}

#[test]
fn test_bash_parser_history_errors() {
    let parser: Bash = Bash::new();
    let context = ParseContext { home_dir: String::from("/home/user"), prev_dir: String::from("/"), environ: Vec::new() };
    //The offset must be a number
    let mut input: VecDeque<String> = parser.readline(&String::from("-d abc")).unwrap();
    match parser.parse_history(&context, &mut input) {
        Err(err) => {
            assert_eq!(err.code, ParserErrorCode::TooManyArgs);
            assert_eq!(err.message, String::from("history del index must be a number"));
        },
        Ok(_) => panic!("a bad offset is an error"),
    }
    //An unknown option
    let mut input: VecDeque<String> = parser.readline(&String::from("-x")).unwrap();
    assert!(parser.parse_history(&context, &mut input).unwrap() == ShellStatement::Output(None, Some(String::from("bash: History invalid option: Unrecognized option: 'x'"))));
    //A file name with a leading '~' stands in the home directory
    let mut input: VecDeque<String> = parser.readline(&String::from("-w ~/h.txt")).unwrap();
    assert!(parser.parse_history(&context, &mut input).unwrap() == ShellStatement::History(HistoryOptions::Write(String::from("/home/user/h.txt"), true)));
}

#[test]
fn session_readline_parsed_runs_the_parsed_expression() {
    let (mut core, _ustream) = ShellCore::new(None, 8, Box::new(LineParser), Box::new(TestHost));
    //The pending line: the buffered input and the reply while waiting
    core.state = ShellState::Waiting;
    core.buf_in = String::from("ec");
    assert_eq!(core.pending_line(&String::from("ho")), String::from("echo"));
    core.state = ShellState::Idle;
    core.buf_in = String::new();
    assert_eq!(core.pending_line(&String::from("ho")), String::from("ho"));
    //A valid expression is recorded and run; its code is stored
    let expression = ShellExpression::new(vec![(ShellStatement::Return(7), TaskRelation::Unrelated)]);
    assert_eq!(core.readline_parsed(String::from("return 7"), String::from("return 7"), Ok(expression), 100).unwrap(), 7);
    assert_eq!(core.history_at(0).unwrap(), String::from("return 7"));
    assert_eq!(core.value_get(&String::from("?")).unwrap(), String::from("7"));
    assert_eq!(core.value_get(&String::from("status")).unwrap(), String::from("7"));
    assert_eq!(core.state, ShellState::Idle);
    //An incomplete line is buffered once, and the session waits
    let err = ParserError::new(ParserErrorCode::Incomplete, String::from("incomplete"));
    assert!(core.readline_parsed(String::from("if"), String::from("if"), Err(err), 100).is_err());
    assert_eq!(core.buf_in, String::from("if"));
    assert_eq!(core.state, ShellState::Waiting);
    assert_eq!(core.history_at(0).unwrap(), String::from("return 7"));
    //Another error is recorded in the history
    let err = ParserError::new(ParserErrorCode::BadToken, String::from("bad"));
    assert!(core.readline_parsed(String::from("x"), String::from("ifx"), Err(err), 100).is_err());
    assert_eq!(core.history_at(0).unwrap(), String::from("ifx"));
    assert_eq!(core.state, ShellState::Waiting);
}

#[test]
fn runner_task_block_result_and_output_trim() {
    let mut runner = ShellRunner::new();
    let mut output = String::from("a\n");
    let rc = runner.task_block_result(TaskRun { exit_code: 3, output: String::from("b\n"), interrupted: false }, &mut output);
    assert_eq!(rc, 3);
    assert_eq!(output, String::from("a\nb\n"));
    assert_eq!(runner.exit_flag, None);
    let rc = runner.task_block_result(TaskRun { exit_code: 130, output: String::new(), interrupted: true }, &mut output);
    assert_eq!(rc, 130);
    assert_eq!(runner.exit_flag, Some(130));
    assert_eq!(output, String::from("a\nb\n"));
    //One final newline goes
    assert_eq!(trim_final_newline(String::from("5\n")), String::from("5"));
    assert_eq!(trim_final_newline(String::from("5\n\n")), String::from("5\n"));
    assert_eq!(trim_final_newline(String::from("5")), String::from("5"));
    assert_eq!(trim_final_newline(String::new()), String::new());
}

#[test]
fn session_source_parsed_and_read_errors() {
    let (mut core, _ustream) = new_core(None, 8);
    //A parsed file runs; its code is stored
    let expression = ShellExpression::new(vec![(ShellStatement::Return(4), TaskRelation::Unrelated)]);
    assert_eq!(core.source_parsed(Ok(expression), 100).unwrap(), 4);
    assert_eq!(core.value_get(&String::from("?")).unwrap(), String::from("4"));
    assert_eq!(core.value_get(&String::from("status")).unwrap(), String::from("4"));
    //A parser error is returned as such
    let err = ParserError::new(ParserErrorCode::BadToken, String::from("bad"));
    match core.source_parsed(Err(err), 100) {
        Err(ShellError::Parser(e)) => assert_eq!(e.code, ParserErrorCode::BadToken),
        _ => panic!("a parser error is returned"),
    }
    //The errors of a file that cannot be read
    assert!(matches!(read_error(String::from("/x"), FileError::NotFound), ShellError::NoSuchFileOrDirectory(f) if f == String::from("/x")));
    assert!(matches!(read_error(String::from("/x"), FileError::PermissionDenied), ShellError::PermissionDenied(f) if f == String::from("/x")));
    assert!(matches!(read_error(String::from("/x"), FileError::Other), ShellError::Other));
}

#[test]
fn runner_expression_output_follows_its_statements() {
    let (mut core, _ustream) = new_core(None, 8);
    let mut runner = ShellRunner::new();
    //A value replaces the output, the last one stands
    let expression = ShellExpression::new(vec![
        (ShellStatement::Value(String::from("a")), TaskRelation::Unrelated),
        (ShellStatement::Value(String::from("b")), TaskRelation::Unrelated),
    ]);
    assert_eq!(runner.run_expression(&mut core, expression), (0, String::from("b")));
    //A return keeps what was printed before it
    let mut runner = ShellRunner::new();
    let expression = ShellExpression::new(vec![
        (ShellStatement::Value(String::from("x")), TaskRelation::Unrelated),
        (ShellStatement::Return(3), TaskRelation::Unrelated),
        (ShellStatement::Value(String::from("y")), TaskRelation::Unrelated),
    ]);
    assert_eq!(runner.run_expression(&mut core, expression), (3, String::from("x")));
}

#[test]
fn runner_chain_result_follows_the_relations() {
    let blocks = vec![
        ChainBlock { is_task: true, prev: TaskRelation::Unrelated, next: TaskRelation::And },
        ChainBlock { is_task: true, prev: TaskRelation::And, next: TaskRelation::Or },
        ChainBlock { is_task: true, prev: TaskRelation::Or, next: TaskRelation::Unrelated },
    ];
    //The first block fails: the one after && is skipped, the one after || runs
    let results = vec![(1u8, String::from("a\n"), false), (0u8, String::from("c\n"), false)];
    assert_eq!(chain_result(&blocks, &results), (0, String::from("a\nc")));
    //The first block succeeds: the second runs, and the third is skipped
    let results = vec![(0u8, String::from("a\n"), false), (0u8, String::from("b\n"), false)];
    assert_eq!(chain_result(&blocks, &results), (0, String::from("a\nb")));
    //A block that stops the chain
    let results = vec![(130u8, String::from("x"), true)];
    assert_eq!(chain_result(&blocks, &results), (130, String::from("x")));
}

#[test]
fn session_home_or_root() {
    assert_eq!(home_or_root(Some(String::from("/home/u"))), String::from("/home/u"));
    assert_eq!(home_or_root(None), String::from("/"));
}

#[test]
fn test_search_hits_agree_with_search() {
    let (mut core, _): (ShellCore, UserStream) = new_core(None, 64);
    core.history_push(String::from("git status"));
    core.history_push(String::from("ls"));
    core.history_push(String::from("git commit -a"));
    core.history_push(String::from("git push"));
    let found: Vec<String> = core.reverse_search(&String::from("git"), None).unwrap();
    for (hit, entry) in found.iter().enumerate() {
        assert_eq!(core.reverse_search_hits(&String::from("git"), hit).unwrap(), entry.clone());
    }
    assert!(core.reverse_search_hits(&String::from("git"), found.len()).is_none());
    assert!(core.reverse_search(&String::from("svn"), None).is_none());
    assert!(core.reverse_search_hits(&String::from("svn"), 0).is_none());
}

#[test]
fn test_read_value_cuts_by_bytes() {
    assert_eq!(read_value(&String::from("HI_THERE"), Some(5)), String::from("HI_TH"));
    assert_eq!(read_value(&String::from("h\u{e9}llo"), Some(3)), String::from("h\u{e9}"));
    assert_eq!(read_value(&String::from("h\u{e9}llo"), Some(2)), String::from("h"));
    assert_eq!(read_value(&String::from("h\u{e9}llo"), Some(64)), String::from("h\u{e9}llo"));
    assert_eq!(read_value(&String::from("h\u{e9}llo"), None), String::from("h\u{e9}llo"));
    assert_eq!(read_value(&String::from("abc"), Some(0)), String::new());
}
