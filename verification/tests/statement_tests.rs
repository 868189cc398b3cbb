//! Tests of statement equality and of the path comparison it uses.

use shell_core::paths::same_path;
use shell_core::statement::{ShellExpression, ShellStatement};
use shell_core::{MathOperator, Redirection, Task, TaskRelation};

#[test]
fn test_lib_shell_statement_eq() {
    //Alias
    assert!(ShellStatement::Alias(None, None) == ShellStatement::Alias(None, None));
    assert!(ShellStatement::Alias(Some(String::from("foo")), Some(String::from("bar"))) != ShellStatement::Alias(None, None));
    assert!(ShellStatement::Alias(Some(String::from("foo")), Some(String::from("bar"))) != ShellStatement::Break);
    //Break
    assert!(ShellStatement::Break == ShellStatement::Break);
    assert!(ShellStatement::Break != ShellStatement::Alias(None, None));
    //Case
    let case_match: ShellExpression = ShellExpression {
        statements: vec![(ShellStatement::Value(String::from("1")), TaskRelation::Unrelated)]
    };
    let case_match2: ShellExpression = ShellExpression {
        statements: vec![(ShellStatement::Value(String::from("5")), TaskRelation::Unrelated)]
    };
    assert!(ShellStatement::Case(case_match.clone(), vec![]) == ShellStatement::Case(case_match.clone(), vec![]));
    assert!(ShellStatement::Case(case_match.clone(), vec![]) != ShellStatement::Case(case_match2.clone(), vec![]));
    assert!(ShellStatement::Case(case_match.clone(), vec![]) != ShellStatement::Break);
    //Cd
    assert!(ShellStatement::Cd(String::from("/tmp/")) == ShellStatement::Cd(String::from("/tmp/")));
    assert!(ShellStatement::Cd(String::from("/tmp/")) != ShellStatement::Cd(String::from("/home/")));
    assert!(ShellStatement::Cd(String::from("/tmp/")) != ShellStatement::Break);
    //Continue
    assert!(ShellStatement::Continue == ShellStatement::Continue);
    assert!(ShellStatement::Continue != ShellStatement::Alias(None, None));
    //Dirs
    assert!(ShellStatement::Dirs == ShellStatement::Dirs);
    assert!(ShellStatement::Dirs != ShellStatement::Alias(None, None));
    //Exec
    let task: Task = Task::new(vec![String::from("ls")], Redirection::Stdout, Redirection::Stderr);
    assert!(ShellStatement::Exec(task.clone()) == ShellStatement::Exec(task.clone()));
    assert!(ShellStatement::Exec(task.clone()) != ShellStatement::Exec(Task::new(vec![String::from("echo")], Redirection::Stdout, Redirection::Stderr)));
    assert!(ShellStatement::Exec(task.clone()) != ShellStatement::Break);
    //Exec history
    assert!(ShellStatement::ExecHistory(8) == ShellStatement::ExecHistory(8));
    assert!(ShellStatement::ExecHistory(8) != ShellStatement::ExecHistory(128));
    assert!(ShellStatement::ExecHistory(8) != ShellStatement::Break);
    //Exit
    assert!(ShellStatement::Exit(0) == ShellStatement::Exit(0));
    assert!(ShellStatement::Exit(0) != ShellStatement::Exit(128));
    assert!(ShellStatement::Exit(0) != ShellStatement::Break);
    //Export
    assert!(ShellStatement::Export(String::from("foo"), ShellExpression {statements: vec![(ShellStatement::Value(String::from("0")), TaskRelation::Unrelated)]}) == ShellStatement::Export(String::from("foo"), ShellExpression {statements: vec![(ShellStatement::Value(String::from("0")), TaskRelation::Unrelated)]}));
    assert!(ShellStatement::Export(String::from("foo"), ShellExpression {statements: vec![(ShellStatement::Value(String::from("0")), TaskRelation::Unrelated)]}) != ShellStatement::Export(String::from("bar"), ShellExpression {statements: vec![(ShellStatement::Value(String::from("0")), TaskRelation::Unrelated)]}));
    assert!(ShellStatement::Export(String::from("foo"), ShellExpression {statements: vec![(ShellStatement::Value(String::from("0")), TaskRelation::Unrelated)]}) != ShellStatement::Break);
    //For
    assert!(ShellStatement::For(String::from("VAR"), ShellExpression {statements: vec![(ShellStatement::Value(String::from("0")), TaskRelation::Unrelated)]}, ShellExpression {statements: vec![(ShellStatement::Value(String::from("0")), TaskRelation::Unrelated)]}) == ShellStatement::For(String::from("VAR"), ShellExpression {statements: vec![(ShellStatement::Value(String::from("0")), TaskRelation::Unrelated)]}, ShellExpression {statements: vec![(ShellStatement::Value(String::from("0")), TaskRelation::Unrelated)]}));
    assert!(ShellStatement::For(String::from("VAR"), ShellExpression {statements: vec![(ShellStatement::Value(String::from("0")), TaskRelation::Unrelated)]}, ShellExpression {statements: vec![(ShellStatement::Value(String::from("0")), TaskRelation::Unrelated)]}) != ShellStatement::For(String::from("VAR2"), ShellExpression {statements: vec![(ShellStatement::Value(String::from("0")), TaskRelation::Unrelated)]}, ShellExpression {statements: vec![(ShellStatement::Value(String::from("0")), TaskRelation::Unrelated)]}));
    assert!(ShellStatement::For(String::from("VAR"), ShellExpression {statements: vec![(ShellStatement::Value(String::from("0")), TaskRelation::Unrelated)]}, ShellExpression {statements: vec![(ShellStatement::Value(String::from("0")), TaskRelation::Unrelated)]}) != ShellStatement::Break);
    //Function
    assert!(ShellStatement::Function(String::from("foo"), ShellExpression {statements: vec![(ShellStatement::Return(0), TaskRelation::Unrelated)]}) == ShellStatement::Function(String::from("foo"), ShellExpression {statements: vec![(ShellStatement::Return(0), TaskRelation::Unrelated)]}));
    assert!(ShellStatement::Function(String::from("foo"), ShellExpression {statements: vec![(ShellStatement::Return(0), TaskRelation::Unrelated)]}) != ShellStatement::Function(String::from("bar"), ShellExpression {statements: vec![(ShellStatement::Return(0), TaskRelation::Unrelated)]}));
    assert!(ShellStatement::Function(String::from("foo"), ShellExpression {statements: vec![(ShellStatement::Return(0), TaskRelation::Unrelated)]}) != ShellStatement::Break);
    //If
    assert!(ShellStatement::If(ShellExpression {statements: vec![(ShellStatement::Return(0), TaskRelation::Unrelated)]}, ShellExpression {statements: vec![(ShellStatement::Return(0), TaskRelation::Unrelated)]}, None) == ShellStatement::If(ShellExpression {statements: vec![(ShellStatement::Return(0), TaskRelation::Unrelated)]}, ShellExpression {statements: vec![(ShellStatement::Return(0), TaskRelation::Unrelated)]}, None));
    assert!(ShellStatement::If(ShellExpression {statements: vec![(ShellStatement::Return(0), TaskRelation::Unrelated)]}, ShellExpression {statements: vec![(ShellStatement::Return(0), TaskRelation::Unrelated)]}, None) != ShellStatement::If(ShellExpression {statements: vec![(ShellStatement::Return(3), TaskRelation::Unrelated)]}, ShellExpression {statements: vec![(ShellStatement::Return(0), TaskRelation::Unrelated)]}, None));
    assert!(ShellStatement::If(ShellExpression {statements: vec![(ShellStatement::Return(0), TaskRelation::Unrelated)]}, ShellExpression {statements: vec![(ShellStatement::Return(0), TaskRelation::Unrelated)]}, None) != ShellStatement::Break);
    //Let
    assert!(ShellStatement::Let(String::from("TMP"), ShellExpression {statements: vec![(ShellStatement::Return(0), TaskRelation::Unrelated)]}, MathOperator::Sum, ShellExpression {statements: vec![(ShellStatement::Return(2), TaskRelation::Unrelated)]}) == ShellStatement::Let(String::from("TMP"), ShellExpression {statements: vec![(ShellStatement::Return(0), TaskRelation::Unrelated)]}, MathOperator::Sum, ShellExpression {statements: vec![(ShellStatement::Return(2), TaskRelation::Unrelated)]}));
    assert!(ShellStatement::Let(String::from("TMP"), ShellExpression {statements: vec![(ShellStatement::Return(0), TaskRelation::Unrelated)]}, MathOperator::Sum, ShellExpression {statements: vec![(ShellStatement::Return(2), TaskRelation::Unrelated)]}) != ShellStatement::Let(String::from("TMP"), ShellExpression {statements: vec![(ShellStatement::Return(0), TaskRelation::Unrelated)]}, MathOperator::Subtract, ShellExpression {statements: vec![(ShellStatement::Return(2), TaskRelation::Unrelated)]}));
    assert!(ShellStatement::Let(String::from("TMP"), ShellExpression {statements: vec![(ShellStatement::Return(0), TaskRelation::Unrelated)]}, MathOperator::Sum, ShellExpression {statements: vec![(ShellStatement::Return(2), TaskRelation::Unrelated)]}) != ShellStatement::Break);
    //Popdback
    assert!(ShellStatement::PopdBack == ShellStatement::PopdBack);
    assert!(ShellStatement::PopdBack != ShellStatement::Break);
    //Popdfront
    assert!(ShellStatement::PopdFront == ShellStatement::PopdFront);
    assert!(ShellStatement::PopdFront != ShellStatement::Break);
    //Pushd
    assert!(ShellStatement::Pushd(String::from("/tmp/")) == ShellStatement::Pushd(String::from("/tmp/")));
    assert!(ShellStatement::Pushd(String::from("/tmp/")) != ShellStatement::Pushd(String::from("/home/")));
    assert!(ShellStatement::Pushd(String::from("/tmp/")) != ShellStatement::Break);
    //Read
    assert!(ShellStatement::Read(None, None, None) == ShellStatement::Read(None, None, None));
    assert!(ShellStatement::Read(None, None, None) != ShellStatement::Read(None, Some(32), None));
    assert!(ShellStatement::Read(None, None, None) != ShellStatement::Break);
    //Return
    assert!(ShellStatement::Return(0) == ShellStatement::Return(0));
    assert!(ShellStatement::Return(0) != ShellStatement::Return(2));
    assert!(ShellStatement::Return(0) != ShellStatement::Break);
    //Set
    assert!(ShellStatement::SetValue(String::from("foo"), ShellExpression {statements: vec![(ShellStatement::Value(String::from("0")), TaskRelation::Unrelated)]}) == ShellStatement::SetValue(String::from("foo"), ShellExpression {statements: vec![(ShellStatement::Value(String::from("0")), TaskRelation::Unrelated)]}));
    assert!(ShellStatement::SetValue(String::from("foo"), ShellExpression {statements: vec![(ShellStatement::Value(String::from("0")), TaskRelation::Unrelated)]}) != ShellStatement::SetValue(String::from("foo"), ShellExpression {statements: vec![(ShellStatement::Value(String::from("5")), TaskRelation::Unrelated)]}));
    assert!(ShellStatement::SetValue(String::from("foo"), ShellExpression {statements: vec![(ShellStatement::Value(String::from("0")), TaskRelation::Unrelated)]}) != ShellStatement::Break);
    //Source
    assert!(ShellStatement::Source(String::from("/tmp/set.sh")) == ShellStatement::Source(String::from("/tmp/set.sh")));
    assert!(ShellStatement::Source(String::from("/tmp/set.sh")) != ShellStatement::Source(String::from("/tmp/get.sh")));
    assert!(ShellStatement::Source(String::from("/tmp/set.sh")) != ShellStatement::Break);
    //Time
    assert!(ShellStatement::Time(Task::new(vec![String::from("echo")], Redirection::Stdout, Redirection::Stderr)) == ShellStatement::Time(Task::new(vec![String::from("echo")], Redirection::Stdout, Redirection::Stderr)));
    assert!(ShellStatement::Time(Task::new(vec![String::from("echo")], Redirection::Stdout, Redirection::Stderr)) != ShellStatement::Time(Task::new(vec![String::from("ls")], Redirection::Stdout, Redirection::Stderr)));
    assert!(ShellStatement::Time(Task::new(vec![String::from("echo")], Redirection::Stdout, Redirection::Stderr)) != ShellStatement::Break);
    //Unalias
    assert!(ShellStatement::Unalias(String::from("ll")) == ShellStatement::Unalias(String::from("ll")));
    assert!(ShellStatement::Unalias(String::from("ll")) != ShellStatement::Unalias(String::from("filesize")));
    assert!(ShellStatement::Unalias(String::from("ll")) != ShellStatement::Break);
    //Value
    assert!(ShellStatement::Value(String::from("5")) == ShellStatement::Value(String::from("5")));
    assert!(ShellStatement::Value(String::from("5")) != ShellStatement::Value(String::from("15")));
    assert!(ShellStatement::Value(String::from("5")) != ShellStatement::Break);
    //While
    assert!(ShellStatement::While(ShellExpression {statements: vec![(ShellStatement::Value(String::from("0")), TaskRelation::Unrelated)]}, ShellExpression {statements: vec![(ShellStatement::Value(String::from("0")), TaskRelation::Unrelated)]}) == ShellStatement::While(ShellExpression {statements: vec![(ShellStatement::Value(String::from("0")), TaskRelation::Unrelated)]}, ShellExpression {statements: vec![(ShellStatement::Value(String::from("0")), TaskRelation::Unrelated)]}));
    assert!(ShellStatement::While(ShellExpression {statements: vec![(ShellStatement::Value(String::from("0")), TaskRelation::Unrelated)]}, ShellExpression {statements: vec![(ShellStatement::Value(String::from("0")), TaskRelation::Unrelated)]}) != ShellStatement::While(ShellExpression {statements: vec![(ShellStatement::Value(String::from("0")), TaskRelation::Unrelated)]}, ShellExpression {statements: vec![(ShellStatement::Value(String::from("2")), TaskRelation::Unrelated)]}));
    assert!(ShellStatement::While(ShellExpression {statements: vec![(ShellStatement::Value(String::from("0")), TaskRelation::Unrelated)]}, ShellExpression {statements: vec![(ShellStatement::Value(String::from("0")), TaskRelation::Unrelated)]}) != ShellStatement::Value(String::from("5")));
}

#[test]
fn statement_equality_is_reflexive_on_nested_expressions() {
    let inner = ShellExpression { statements: vec![(ShellStatement::Value(String::from("x")), TaskRelation::And)] };
    let s = ShellStatement::If(inner.clone(), inner.clone(), Some(inner.clone()));
    assert!(s == s.clone());
    let t = ShellStatement::If(inner.clone(), inner.clone(), None);
    assert!(s != t);
}

#[test]
fn statement_relations_take_part_in_equality() {
    let a = ShellExpression { statements: vec![(ShellStatement::Value(String::from("x")), TaskRelation::And)] };
    let b = ShellExpression { statements: vec![(ShellStatement::Value(String::from("x")), TaskRelation::Or)] };
    assert!(a != b);
}

#[test]
fn paths_compare_by_components() {
    assert!(same_path(&String::from("/home"), &String::from("/home/")));
    assert!(same_path(&String::from("/a//b/./c"), &String::from("/a/b/c")));
    assert!(!same_path(&String::from("/a/b"), &String::from("a/b")));
    assert!(!same_path(&String::from("./a"), &String::from("a")));
    assert!(same_path(&String::from("a/."), &String::from("a")));
    assert!(!same_path(&String::from("/a/.."), &String::from("/")));
    assert!(same_path(&String::from(""), &String::from("")));
}
