//! Tests of the runner against the real file system: wildcards are matched by the `glob`
//! crate, and `echo` is the only command.

use shell_core::parsers::bash::Bash;
use shell_core::runner::ShellRunner;
use shell_core::session::{DirError, FileError, TaskRun};
use shell_core::statement::{ShellExpression, ShellStatement};
use shell_core::streams::ShellStream;
use shell_core::{FileRedirectionType, Redirection, ShellCore, ShellHost, ShellStreamMessage, Task, TaskRelation, UserStream};
use std::io::Write;
use std::path::Path;

/// A host whose wildcards and directories are those of the file system.
struct FsHost;

impl ShellHost for FsHost {
    fn change_dir(&self, dir: &String) -> Result<(), DirError> {
        if Path::new(dir).is_dir() {
            Ok(())
        } else {
            Err(DirError::NotFound)
        }
    }

    fn environment(&self) -> Vec<(String, String)> {
        Vec::new()
    }

    fn set_env(&self, _key: &String, _value: &String) {}

    fn remove_env(&self, _key: &String) {}

    fn read_file(&self, _file: &String) -> Result<String, FileError> {
        Err(FileError::NotFound)
    }

    fn list_dir(&self, _dir: &String) -> Result<Vec<String>, DirError> {
        Err(DirError::NotFound)
    }

    fn glob(&self, pattern: &String) -> Option<Vec<String>> {
        match glob::glob(pattern.as_str()) {
            Ok(paths) => Some(paths.filter_map(|p| p.ok()).map(|p| p.to_string_lossy().into_owned()).collect()),
            Err(_) => None,
        }
    }

    fn now_ms(&self) -> u64 {
        0
    }

    fn run_task(&self, task: Task, _input: Option<String>, stream: &ShellStream) -> TaskRun {
        if task.command[0] == "echo" {
            let output = format!("{}\n", task.command[1..].join(" "));
            let _ = stream.send(ShellStreamMessage::Output((Some(output.clone()), None)));
            TaskRun { exit_code: 0, output, interrupted: false }
        } else {
            TaskRun { exit_code: 255, output: String::new(), interrupted: false }
        }
    }

    fn write_file(&self, _file: &String, _mode: FileRedirectionType, _content: &String) -> Result<(), String> {
        Ok(())
    }
}

/// A new session on the file system host.
fn fs_core(wrkdir: Option<String>) -> (ShellCore, UserStream) {
    ShellCore::new(wrkdir, 128, Box::new(Bash::new()), Box::new(FsHost))
}

/// A temporary directory holding `amount` files, `file_0.txt`, `file_1.txt`, ...
fn create_tmp_dir_with_files(amount: usize) -> (tempfile::TempDir, Vec<String>) {
    let tmpdir: tempfile::TempDir = tempfile::TempDir::new().unwrap();
    let mut files: Vec<String> = Vec::with_capacity(amount);
    for i in 0..amount {
        let filename: String = format!("{}/file_{}.txt", tmpdir.path().display(), i);
        files.push(filename.clone());
        let prefix: String = format!("file_{}", i);
        let mut file = tempfile::Builder::new().prefix(&prefix).suffix(".txt").rand_bytes(0).tempfile_in(tmpdir.path()).unwrap();
        let _ = file.write_all(b"Hello World!");
        let _ = file.keep().unwrap();
    }
    (tmpdir, files)
}

/// A `for` over `pattern` that echoes each path.
fn echo_each(pattern: String) -> (ShellExpression, ShellExpression) {
    let iterator: ShellExpression = ShellExpression { statements: vec![(ShellStatement::Value(pattern), TaskRelation::Unrelated)] };
    let foreach_task: Task = Task::new(vec![String::from("echo"), String::from("$FILE")], Redirection::Stdout, Redirection::Stderr);
    let foreach_perform: ShellExpression = ShellExpression { statements: vec![(ShellStatement::Exec(foreach_task), TaskRelation::Unrelated)] };
    (iterator, foreach_perform)
}

#[test]
fn test_runner_foreach() {
    let mut runner: ShellRunner = ShellRunner::new();
    let (mut core, ustream): (ShellCore, UserStream) = fs_core(None);
    //Let's create a temp dir with 4 files in it
    let (tmpdir, files): (tempfile::TempDir, Vec<String>) = create_tmp_dir_with_files(4);
    let file_case: String = format!("{}/*", tmpdir.path().display());
    let (iterator, foreach_perform) = echo_each(file_case);
    //This for each will store each file contained in tmpdir into FILE; then for each entry echo $FILE will be performed
    assert_eq!(runner.foreach(&mut core, String::from("FILE"), iterator, foreach_perform).unwrap(), 0);
    //We should receive 4 messages in ustream
    let inbox: Vec<ShellStreamMessage> = ustream.receive().unwrap();
    assert_eq!(inbox.len(), 4);
    for (index, message) in inbox.iter().enumerate() {
        if let ShellStreamMessage::Output((stdout, _stderr)) = message {
            let mut filename: String = stdout.as_ref().unwrap().clone();
            filename.pop(); //Remove newline
            //Verify filename is the same
            assert_eq!(filename, files[index].to_string());
        } else {
            panic!("Not an output message");
        }
    }
    //Foreach in empty directory
    let tmpdir: tempfile::TempDir = tempfile::TempDir::new().unwrap();
    let file_case: String = format!("{}/*", tmpdir.path().display());
    let (iterator, foreach_perform) = echo_each(file_case);
    //Must be None since there's no file in it
    assert!(runner.foreach(&mut core, String::from("FILE"), iterator, foreach_perform).is_none());
    //Foreach in not existing directory
    let (iterator, foreach_perform) = echo_each(String::from("/tmp/thisdirectorydoesnotexist/*"));
    //Must be None, directory doesn't exist
    assert!(runner.foreach(&mut core, String::from("FILE"), iterator, foreach_perform).is_none());
}

#[test]
fn test_runner_eval_values() {
    let runner: ShellRunner = ShellRunner::new();
    //Instantiate cores
    let (mut core, _): (ShellCore, UserStream) = fs_core(Some(String::from("/bin/")));
    //Set test values into storage
    core.storage_set(String::from("KEYTEST1"), String::from("BAR"));
    core.storage_set(String::from("KEYTEST2"), String::from("/*"));
    core.storage_set(String::from("KEYTEST3"), String::from("./*"));
    //Evaluate values
    assert_eq!(runner.eval_value(&core, String::from("$NOKEY")), String::from(""));
    assert_eq!(runner.eval_value(&core, String::from("${NOKEY}")), String::from(""));
    assert_eq!(runner.eval_value(&core, String::from("$KEYTEST1")), String::from("BAR"));
    assert_eq!(runner.eval_value(&core, String::from("${KEYTEST1}")), String::from("BAR"));
    assert_ne!(runner.eval_value(&core, String::from("${KEYTEST2}")), String::from("/*"));
    assert!(runner.eval_value(&core, String::from("${KEYTEST2}")).matches("/bin").count() > 0);
    assert_ne!(runner.eval_value(&core, String::from("${KEYTEST3}")), String::from("./*"));
    assert_ne!(runner.eval_value(&core, String::from("${KEYTEST3}")), String::from(""));
    assert!(runner.eval_value(&core, String::from("${KEYTEST3}")).matches("cp").count() > 0);
}

#[test]
fn runner_wildcard_lists_matches_after_the_working_directory() {
    let runner: ShellRunner = ShellRunner::new();
    let (tmpdir, files): (tempfile::TempDir, Vec<String>) = create_tmp_dir_with_files(2);
    let (core, _): (ShellCore, UserStream) = fs_core(Some(tmpdir.path().display().to_string()));
    //A relative pattern is matched under the working directory; each path is followed by a space
    assert_eq!(runner.eval_value(&core, String::from("*.txt")), format!("{} {} ", files[0], files[1]));
    //An escaped wildcard is no wildcard
    assert_eq!(runner.eval_value(&core, String::from("\\*.txt")), String::from("\\*.txt"));
}
