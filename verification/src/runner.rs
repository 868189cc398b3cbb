//! # Runner
//!
//! `ShellRunner` executes shell expressions statement by statement against a session.
//! Statements report to the user stream; a report the user can no longer receive sets the
//! exit flag to 255, which stops the expression. Every statement the runner executes uses
//! one step of its budget (`STEP_BUDGET` for a new runner); a runner whose budget is spent
//! stops with exit code 255.

use crate::parsers::tokenizer::{vv, words, words_exec};
use crate::paths::is_absolute;
use crate::tasks::command_view;
use crate::session::{dirs_after_push, readline_outcome, FileError, TaskRun, DIRS_CAPACITY};
use crate::statement::{ExprModel, HistoryOptions, StatementModel};
use crate::math::{math_value, operand_value};
use crate::MathError;
use crate::text::{chars_of, decimal_text, owned, starts_with, string_from_range, valid_command_name, valid_var_name};
use crate::{
    FileRedirectionType, MathOperator, Redirection, ShellCore, ShellError, ShellExpression, ShellStatement,
    ShellStreamMessage, Task, TaskError, TaskErrorCode, TaskRelation, UserStreamMessage,
};
use crate::tasks::{TaskLink, TaskMessageRx, TaskMessageTx};
use std::collections::VecDeque;
use vstd::prelude::*;

verus! {

/// The number of statements a new runner may execute.
pub const STEP_BUDGET: u64 = 0xffff_ffff_ffff_ffff;

/// The exit code of an expression that had to stop: the user stream hung up, the user
/// interrupted it, or the step budget ran out.
pub const ABORT_EXIT_CODE: u8 = 255;

/// ## ShellRunner
///
/// - buffer: input the user sent, waiting for the next task
/// - exit_flag: once set, the expression stops with this exit code
/// - break_loop: whether the enclosing loop is to stop
/// - steps: the statements this runner may still execute
/// - sent: the messages this runner has handed to the user stream, in order
/// - host_runs: the pipelines this runner has handed to the host, with what it got back
/// - heard: what this runner received from the user between statements (`None` for a
///   hung-up user stream)
/// - last_run: the model of the expression this runner finished running last, and the
///   exit code it gave
/// - loop_trail: what the last `while` loop this runner finished ran: its condition and
///   its body by turns, each with the exit code it gave
pub struct ShellRunner {
    pub buffer: Option<String>,
    pub exit_flag: Option<u8>,
    pub break_loop: bool,
    pub steps: u64,
    pub sent: Ghost<Seq<ShellStreamMessage>>,
    pub host_runs: Ghost<Seq<HostRun>>,
    pub heard: Ghost<Seq<Option<UserStreamMessage>>>,
    pub last_run: Ghost<Option<(ExprModel, u8)>>,
    pub loop_trail: Ghost<Seq<(ExprModel, u8)>>,
}

/// A pipeline handed to the host: the task, the input written to it first, and the run
/// the host answered.
pub struct HostRun {
    pub task: Task,
    pub input: Option<String>,
    pub run: TaskRun,
}

/// ## Function
///
/// A function call inside a task chain: its expression, its arguments (the first one is
/// the function's name) and where its output goes.
pub struct Function {
    pub expression: ShellExpression,
    pub args: Vec<String>,
    pub redirection: Redirection,
}

/// ## TaskChain
///
/// A pipeline cut into blocks: runs of tasks the task manager executes, and function
/// calls the runner executes itself. Each block knows its relation to the previous block
/// and to the next one.
pub struct TaskChain {
    pub task: Option<Task>,
    pub function: Option<Function>,
    pub prev_relation: TaskRelation,
    pub next_relation: TaskRelation,
    pub next: Option<Box<TaskChain>>,
}

/// What a chain block is, for the contracts: a run of tasks or a function call, and its
/// relations to the blocks around it.
pub struct ChainBlock {
    pub is_task: bool,
    pub prev: TaskRelation,
    pub next: TaskRelation,
}

/// What a chain block holds, for the contracts: the tasks of a task block, the arguments
/// of a function call with the model of the function's expression, or nothing.
pub enum BlockContent {
    Tasks(Seq<TaskLink>),
    Call(Seq<Seq<char>>, ExprModel),
    Empty,
}

/// What a block with `task` or `function` holds.
pub open spec fn block_content(task: Option<Task>, function: Option<Function>) -> BlockContent {
    match task {
        Some(t) => BlockContent::Tasks(t.chain()),
        None => match function {
            Some(f) => BlockContent::Call(command_view(f.args), f.expression.model()),
            None => BlockContent::Empty,
        },
    }
}

impl TaskChain {
    /// What the blocks of the chain hold, in order.
    pub open spec fn contents(&self) -> Seq<BlockContent>
        decreases self,
    {
        let b = block_content(self.task, self.function);
        match self.next {
            Some(n) => seq![b] + n.contents(),
            None => seq![b],
        }
    }

    /// The blocks of the chain, in order.
    pub open spec fn blocks(&self) -> Seq<ChainBlock>
        decreases self,
    {
        let b = ChainBlock { is_task: self.task is Some, prev: self.prev_relation, next: self.next_relation };
        match self.next {
            Some(n) => seq![b] + n.blocks(),
            None => seq![b],
        }
    }

    /// ### new
    ///
    /// A chain of one block.
    pub fn new(task: Option<Task>, function: Option<Function>, prev_relation: TaskRelation) -> (c: TaskChain)
        ensures
            c.task == task,
            c.function == function,
            c.prev_relation == prev_relation,
            c.next_relation == TaskRelation::Unrelated,
            c.next is None,
            c.blocks() == seq![ChainBlock { is_task: task is Some, prev: prev_relation, next: TaskRelation::Unrelated }],
            c.contents() == seq![block_content(task, function)],
    {
        TaskChain { task, function, prev_relation, next_relation: TaskRelation::Unrelated, next: None }
    }

    /// ### chain
    ///
    /// Appends a block at the end of the chain: the former last block and the new one are
    /// related by `relation`.
    pub fn chain(&mut self, next_task: Option<Task>, next_function: Option<Function>, relation: TaskRelation)
        ensures
            final(self).blocks() == old(self).blocks().update(
                old(self).blocks().len() - 1,
                ChainBlock { next: relation, ..old(self).blocks().last() },
            ).push(ChainBlock { is_task: next_task is Some, prev: relation, next: TaskRelation::Unrelated }),
            final(self).contents() == old(self).contents().push(block_content(next_task, next_function)),
            final(self).task == old(self).task,
            final(self).prev_relation == old(self).prev_relation,
            old(self).next is Some ==> final(self).next_relation == old(self).next_relation,
            old(self).next is None ==> final(self).next_relation == relation,
        decreases old(self).blocks().len(),
    {
        let ghost b0 = self.blocks();
        let ghost c0 = self.contents();
        let ghost nc = block_content(next_task, next_function);
        match self.next.take() {
            None => {
                self.next_relation = relation;
                self.next = Some(Box::new(TaskChain::new(next_task, next_function, relation)));
                assert(self.contents() =~= c0.push(nc));
                assert(self.blocks() =~= b0.update(b0.len() - 1, ChainBlock { next: relation, ..b0.last() }).push(
                    ChainBlock { is_task: next_task is Some, prev: relation, next: TaskRelation::Unrelated }));
            },
            Some(mut next) => {
                let ghost nb = next.blocks();
                let ghost ncs = next.contents();
                assert(b0 == seq![b0[0]] + nb);
                assert(c0 == seq![c0[0]] + ncs);
                next.chain(next_task, next_function, relation);
                self.next = Some(next);
                assert(self.contents() =~= c0.push(nc));
                assert(self.blocks() =~= b0.update(b0.len() - 1, ChainBlock { next: relation, ..b0.last() }).push(
                    ChainBlock { is_task: next_task is Some, prev: relation, next: TaskRelation::Unrelated }));
            },
        }
    }
}

impl Function {
    /// ### new
    pub fn new(expression: ShellExpression, args: Vec<String>, redirection: Redirection) -> (f: Function)
        ensures
            f.expression == expression,
            f.args == args,
            f.redirection == redirection,
    {
        Function { expression, args, redirection }
    }
}

/// The name a `$name` or `${name}` value refers to.
pub open spec fn variable_key(v: Seq<char>) -> Option<Seq<char>> {
    if v.len() >= 2 && v[0] == '$' && v[1] == '{' {
        Some(if v.len() >= 3 { v.subrange(2, v.len() - 1) } else { Seq::empty() })
    } else if v.len() >= 1 && v[0] == '$' {
        Some(v.drop_first())
    } else {
        None
    }
}

/// A value once its variable, if any, is replaced by the variable's value (empty when
/// unset).
pub open spec fn expanded_value(core: &ShellCore, v: Seq<char>) -> Seq<char> {
    match variable_key(v) {
        Some(k) => match core.value_of(k) {
            Some(x) => x,
            None => Seq::empty(),
        },
        None => v,
    }
}

/// The number of occurrences of `c` in `s`.
pub open spec fn count_char(s: Seq<char>, c: char) -> nat
    decreases s.len(),
{
    if s.len() == 0 {
        0
    } else {
        count_char(s.drop_last(), c) + if s.last() == c { 1nat } else { 0nat }
    }
}

/// The number of occurrences of a backslash followed by `c` in `s`.
pub open spec fn count_escaped(s: Seq<char>, c: char) -> nat
    decreases s.len(),
{
    if s.len() < 2 {
        0
    } else {
        count_escaped(s.drop_last(), c) + if s.last() == c && s[s.len() - 2] == '\\' { 1nat } else { 0nat }
    }
}

/// Whether a value holds a wildcard (`*` or `?`) that no backslash escapes.
pub open spec fn has_wildcard(s: Seq<char>) -> bool {
    (count_char(s, '*') > 0 && count_char(s, '*') != count_escaped(s, '*'))
        || (count_char(s, '?') > 0 && count_char(s, '?') != count_escaped(s, '?'))
}

/// `path` relative to `dir` (`PathBuf::push`): an absolute path stands alone.
pub open spec fn joined_path(dir: Seq<char>, path: Seq<char>) -> Seq<char> {
    if is_absolute(path) || dir.len() == 0 {
        path
    } else if dir.last() == '/' {
        dir + path
    } else {
        dir + seq!['/'] + path
    }
}

/// What a builtin statement does to the session, given the session before and after it:
/// the alias, function and directory statements, and those that only stop or go on. Of
/// the other statements, which run expressions or ask the host or the user, nothing is
/// said here.
pub open spec fn builtin_effect(statement: ShellStatement, before: ShellCore, after: ShellCore) -> bool {
    match statement {
        ShellStatement::Alias(name, command) => after.alias_view() == match (name, command) {
            (Some(n), Some(c)) => if valid_command_name(n@) { before.alias_view().insert(n@, c@) } else { before.alias_view() },
            _ => before.alias_view(),
        },
        ShellStatement::Unalias(n) => after.alias_view() == before.alias_view().remove(n@),
        ShellStatement::Function(n, e) => if valid_command_name(n@) {
            after.functions_view().dom() == before.functions_view().dom().insert(n@)
                && after.functions_view()[n@].model() == e.model()
        } else {
            after.functions_view() == before.functions_view()
        },
        ShellStatement::PopdBack => after.dirs_view() == if before.dirs_view().len() > 1 { before.dirs_view().drop_last() } else { before.dirs_view() },
        ShellStatement::PopdFront => after.dirs_view() == if before.dirs_view().len() > 1 { before.dirs_view().drop_first() } else { before.dirs_view() },
        ShellStatement::Pushd(d) => after.dirs_view() == dirs_after_push(before.dirs_view(), d@),
        ShellStatement::Dirs | ShellStatement::Exit(_) | ShellStatement::Break | ShellStatement::Continue | ShellStatement::Return(_)
            | ShellStatement::Output(_, _) | ShellStatement::Value(_) => after == before,
        ShellStatement::Exec(t) => no_function_calls(&before, t) ==> after == before,
        ShellStatement::Time(t) => no_function_calls(&before, t) ==> after == before,
        _ => true,
    }
}

/// What `set` does once its value printed `printed` (the session then being `mid`): the
/// output is stored under `key` when it is a variable name, and nothing else changes in
/// the tables.
pub open spec fn stored(key: Seq<char>, mid: ShellCore, after: ShellCore, printed: Seq<char>) -> bool {
    &&& after.storage_view() == (if valid_var_name(key) { mid.storage_view().insert(key, printed) } else { mid.storage_view() })
    &&& after.environ_view() == mid.environ_view()
    &&& after.alias_view() == mid.alias_view()
    &&& after.dirs_view() == mid.dirs_view()
}

/// What `export` does once its value printed `printed` (the session then being `mid`):
/// the output is exported under `key` when it is a variable name, and nothing else changes
/// in the tables.
pub open spec fn exported(key: Seq<char>, mid: ShellCore, after: ShellCore, printed: Seq<char>) -> bool {
    &&& after.environ_view() == (if valid_var_name(key) { mid.environ_view().insert(key, printed) } else { mid.environ_view() })
    &&& after.storage_view() == mid.storage_view()
    &&& after.alias_view() == mid.alias_view()
    &&& after.dirs_view() == mid.dirs_view()
}

/// Whether no task of a pipeline calls a function of the session.
pub open spec fn no_function_calls(core: &ShellCore, task: Task) -> bool {
    forall|i: int| 0 <= i < task.chain().len() ==> !calls_function(core, #[trigger] task.chain()[i].command)
}

/// The exit code of a builtin statement, when the session before it decides it.
pub open spec fn builtin_code(statement: ShellStatement, before: ShellCore) -> Option<u8> {
    match statement {
        ShellStatement::Alias(Some(n), Some(_)) => Some(if valid_command_name(n@) { 0u8 } else { 1u8 }),
        ShellStatement::Alias(Some(n), None) => Some(if before.alias_view().dom().contains(n@) { 0u8 } else { 1u8 }),
        ShellStatement::Alias(None, None) => Some(0u8),
        ShellStatement::Alias(None, Some(_)) => Some(1u8),
        ShellStatement::Unalias(n) => Some(if before.alias_view().dom().contains(n@) { 0u8 } else { 1u8 }),
        ShellStatement::Function(n, _) => Some(if valid_command_name(n@) { 0u8 } else { 1u8 }),
        ShellStatement::PopdBack | ShellStatement::PopdFront => Some(if before.dirs_view().len() > 1 { 0u8 } else { 1u8 }),
        ShellStatement::Pushd(_) | ShellStatement::Dirs | ShellStatement::Break | ShellStatement::Continue
            | ShellStatement::Output(_, _) => Some(0u8),
        ShellStatement::Return(code) => Some(code),
        _ => None,
    }
}

/// The exit code of an expression that runs no statement but a `Return`: 0 for an empty
/// expression, `c` for one whose first statement is `Return(c)`.
pub open spec fn quick_code(e: ShellExpression) -> Option<u8> {
    if e.statements@.len() == 0 {
        Some(0u8)
    } else {
        match e.statements@[0].0 {
            ShellStatement::Return(c) => Some(c),
            _ => None,
        }
    }
}

/// What an expression prints when it needs at most one step and leaves the session as it
/// was: nothing for an empty expression or one that starts with `Return`; for an
/// expression of one `Value` without a wildcard, the value with its variable expanded.
pub open spec fn quick_output(core: &ShellCore, e: ShellExpression) -> Option<Seq<char>> {
    if e.statements@.len() == 0 {
        Some(Seq::empty())
    } else {
        match e.statements@[0].0 {
            ShellStatement::Return(_) => Some(Seq::empty()),
            ShellStatement::Value(v) => if e.statements@.len() == 1 && !has_wildcard(expanded_value(core, v@)) {
                Some(expanded_value(core, v@))
            } else {
                None
            },
            _ => None,
        }
    }
}

/// Expressions with the same model are quick in the same way.
proof fn lemma_quick_by_model(core: &ShellCore, e1: ShellExpression, e2: ShellExpression)
    requires
        e1.model() == e2.model(),
    ensures
        quick_code(e1) == quick_code(e2),
        quick_output(core, e1) == quick_output(core, e2),
        e1.statements@.len() == e2.statements@.len(),
{
    assert(e1.model().statements.len() == e1.statements@.len());
    assert(e2.model().statements.len() == e2.statements@.len());
    if e1.statements@.len() > 0 {
        assert(e1.model().statements[0] == e2.model().statements[0]);
        let s1 = e1.statements@[0].0;
        let s2 = e2.statements@[0].0;
        assert(s1.model() == s2.model());
        match s1 {
            ShellStatement::Return(c) => {
                assert(s2.model() == StatementModel::Return(c));
                assert(s2 is Return);
            },
            ShellStatement::Value(v) => {
                assert(s2.model() == StatementModel::Value(v@));
                assert(s2 is Value);
            },
            _ => {
                assert(!(s2 is Return));
                assert(!(s2 is Value));
            },
        }
    }
}

/// Whether `cores` are the sessions an expression went through: the first before it, the
/// last after it, and between each two one statement, with the effect `builtin_effect`
/// gives it. No statement before the last one run is a `Break`, `Return` or `Exit`, since
/// each of those ends the expression.
pub open spec fn executed(statements: Seq<(ShellStatement, TaskRelation)>, cores: Seq<ShellCore>, before: ShellCore, after: ShellCore) -> bool {
    &&& 1 <= cores.len() <= statements.len() + 1
    &&& cores[0] == before
    &&& cores.last() == after
    &&& reaches(statements, cores.len() - 1)
    &&& forall|j: int| 0 <= j < cores.len() - 1 ==> builtin_effect(#[trigger] statements[j].0, cores[j], cores[j + 1])
    &&& forall|j: int| 0 <= j < cores.len() - 2 ==> !(#[trigger] statements[j].0 is Exit)
}

/// What a statement does to the output of its expression, given the session it ran in and
/// the pipelines handed to the host before and after it: `Exec` adds the output `exec`
/// returns for its task (`exec_returns`), `Time` adds it too, or nothing when the budget
/// ran out; a `Value` replaces the output with the value (its variable expanded, when it
/// holds no wildcard); any other statement leaves it.
pub open spec fn output_step(
    statement: ShellStatement,
    core: ShellCore,
    before: Seq<char>,
    after: Seq<char>,
    runs_before: Seq<HostRun>,
    runs_after: Seq<HostRun>,
) -> bool {
    match statement {
        ShellStatement::Exec(t) => exists|c: u8, o: Seq<char>| #[trigger] exec_returns(core, t, runs_before, runs_after, (c, o)) && after == before + o,
        ShellStatement::Time(t) => after == before
            || exists|c: u8, o: Seq<char>| #[trigger] exec_returns(core, t, runs_before, runs_after, (c, o)) && after == before + o,
        ShellStatement::Value(v) => !has_wildcard(expanded_value(&core, v@)) ==> after == expanded_value(&core, v@),
        _ => after == before,
    }
}

/// Whether `outs` are the outputs an expression had along the sessions `cores` it went
/// through, and `logs` the pipelines handed to the host by then: nothing printed at first,
/// then after each statement what `output_step` gives.
pub open spec fn printed(statements: Seq<(ShellStatement, TaskRelation)>, cores: Seq<ShellCore>, outs: Seq<Seq<char>>, logs: Seq<Seq<HostRun>>) -> bool {
    &&& outs.len() == cores.len()
    &&& logs.len() == cores.len()
    &&& outs[0] == Seq::<char>::empty()
    &&& forall|j: int| 0 <= j < outs.len() - 1 ==> output_step(#[trigger] statements[j].0, cores[j], outs[j], outs[j + 1], logs[j], logs[j + 1])
}

/// One more statement run: its session joins the run when the statement has its effect.
proof fn lemma_executed_push(statements: Seq<(ShellStatement, TaskRelation)>, cores: Seq<ShellCore>, before: ShellCore, after: ShellCore)
    requires
        executed(statements, cores, before, cores.last()),
        cores.len() <= statements.len(),
        builtin_effect(statements[cores.len() - 1].0, cores.last(), after),
        !ends_expression(statements[cores.len() - 1].0),
        forall|j: int| 0 <= j < cores.len() - 1 ==> !(#[trigger] statements[j].0 is Exit),
    ensures
        executed(statements, cores.push(after), before, after),
{
    let c2 = cores.push(after);
    assert forall|j: int| 0 <= j < c2.len() - 1 implies builtin_effect(#[trigger] statements[j].0, c2[j], c2[j + 1]) by {
        if j < cores.len() - 1 {
            assert(c2[j] == cores[j]);
            assert(c2[j + 1] == cores[j + 1]);
        } else {
            assert(c2[j] == cores.last());
        }
    }
    assert(reaches(statements, c2.len() - 1)) by {
        assert forall|j: int| 0 <= j < c2.len() - 1 implies !ends_expression(#[trigger] statements[j].0) by {
            if j < cores.len() - 1 {
                assert(reaches(statements, cores.len() - 1));
            }
        }
    }
}

/// One more statement run: its output joins the outputs when the statement did to the
/// output what `output_step` says.
proof fn lemma_printed_push(
    statements: Seq<(ShellStatement, TaskRelation)>,
    cores: Seq<ShellCore>,
    outs: Seq<Seq<char>>,
    logs: Seq<Seq<HostRun>>,
    after: ShellCore,
    out: Seq<char>,
    log: Seq<HostRun>,
)
    requires
        printed(statements, cores, outs, logs),
        output_step(statements[cores.len() - 1].0, cores.last(), outs.last(), out, logs.last(), log),
        cores.len() >= 1,
    ensures
        printed(statements, cores.push(after), outs.push(out), logs.push(log)),
{
    let c2 = cores.push(after);
    let o2 = outs.push(out);
    let l2 = logs.push(log);
    assert forall|j: int| 0 <= j < o2.len() - 1 implies output_step(#[trigger] statements[j].0, c2[j], o2[j], o2[j + 1], l2[j], l2[j + 1]) by {
        if j < outs.len() - 1 {
            assert(c2[j] == cores[j]);
            assert(o2[j] == outs[j]);
            assert(o2[j + 1] == outs[j + 1]);
            assert(l2[j] == logs[j]);
            assert(l2[j + 1] == logs[j + 1]);
        } else {
            assert(c2[j] == cores.last());
            assert(o2[j] == outs.last());
            assert(l2[j] == logs.last());
        }
    }
}

/// One more statement run: its effect joins the run's, unless an exit flag cut it short.
proof fn lemma_steps_push(
    statements: Seq<(ShellStatement, TaskRelation)>,
    cores: Seq<ShellCore>,
    codes: Seq<u8>,
    logs: Seq<Seq<HostRun>>,
    after: ShellCore,
    c1: u8,
    l1: Seq<HostRun>,
    done: bool,
)
    requires
        steps_full(statements, cores, codes, logs, true),
        logs.len() == cores.len(),
        done ==> full_effect(statements[cores.len() - 1].0, cores.last(), after, codes.last(), c1, logs.last(), l1),
    ensures
        steps_full(statements, cores.push(after), codes.push(c1), logs.push(l1), done),
{
    let c2 = cores.push(after);
    let d2 = codes.push(c1);
    let l2 = logs.push(l1);
    assert forall|j: int|
        0 <= j < statements.len() && j < c2.len() - 1 && (j < c2.len() - 2 || done) implies
        #[trigger] full_effect(statements[j].0, c2[j], c2[j + 1], d2[j], d2[j + 1], l2[j], l2[j + 1]) by {
        if j < cores.len() - 1 {
            assert(c2[j] == cores[j] && c2[j + 1] == cores[j + 1]);
            assert(d2[j] == codes[j] && d2[j + 1] == codes[j + 1]);
            assert(l2[j] == logs[j] && l2[j + 1] == logs[j + 1]);
            assert(full_effect(statements[j].0, cores[j], cores[j + 1], codes[j], codes[j + 1], logs[j], logs[j + 1]));
        } else {
            assert(c2[j] == cores.last() && d2[j] == codes.last() && l2[j] == logs.last());
            assert(c2[j + 1] == after && d2[j + 1] == c1 && l2[j + 1] == l1);
        }
    }
}

/// What running `expression` with `steps` statements of budget and no exit flag does to
/// the session, as far as the session alone decides it: each statement run has its
/// `builtin_effect` (`executed`); an empty expression gives 0; one that starts with
/// `Return` gives its code and leaves the session as it was.
pub open spec fn runs_to(expression: ShellExpression, before: ShellCore, after: ShellCore, steps: u64, rc: u8) -> bool {
    &&& (expression.statements@.len() == 0 ==> rc == 0)
    &&& (steps > 0 ==> (quick_code(expression) matches Some(c) ==> rc == c))
    &&& (steps > 0 && quick_code(expression) is Some ==> after == before)
    &&& (expression.statements@.len() == 1 && steps > 0 ==> builtin_effect(expression.statements@[0].0, before, after))
    &&& exists|cores: Seq<ShellCore>| #[trigger] executed(expression.statements@, cores, before, after)
}

/// Whether the branch an `if` takes for the condition's code `code` ran from `mid` to
/// `after` and gave `a`: the `if` branch for 0, else the `else` branch.
pub open spec fn branch_ran(code: u8, if_perform: ShellExpression, else_perform: Option<ShellExpression>, mid: ShellCore, after: ShellCore, a: u8) -> bool {
    if code == 0 {
        exists|s: u64| #[trigger] runs_to(if_perform, mid, after, s, a)
    } else {
        match else_perform {
            Some(e) => exists|s: u64| #[trigger] runs_to(e, mid, after, s, a),
            None => false,
        }
    }
}

/// What running `expression` from `before` to `after` printed, as `output_step` builds it
/// statement by statement (with the pipelines handed to the host along the way).
pub open spec fn runs_printing(expression: ShellExpression, before: ShellCore, after: ShellCore, out: Seq<char>) -> bool {
    exists|cores: Seq<ShellCore>, outs: Seq<Seq<char>>, logs: Seq<Seq<HostRun>>|
        #![trigger executed(expression.statements@, cores, before, after), printed(expression.statements@, cores, outs, logs)]
        executed(expression.statements@, cores, before, after) && printed(expression.statements@, cores, outs, logs) && out == outs.last()
}

/// `runs_printing` for an expression with the model of `expression` (a copy of it).
pub open spec fn runs_printing_model(expression: ShellExpression, before: ShellCore, after: ShellCore, out: Seq<char>) -> bool {
    exists|e: ShellExpression| e.model() == expression.model() && #[trigger] runs_printing(e, before, after, out)
}

/// `runs_to` for an expression with the model of `expression` (a copy of it), with some
/// budget.
pub open spec fn runs_to_model(expression: ShellExpression, before: ShellCore, after: ShellCore, rc: u8) -> bool {
    exists|e: ShellExpression, s: u64| e.model() == expression.model() && #[trigger] runs_to(e, before, after, s, rc)
}

/// Whether a case's pattern printed what selects it: what `case` printed, or `\*`.
pub open spec fn case_matches(pattern: Seq<char>, printed: Seq<char>) -> bool {
    pattern == printed || pattern == "\\*"@
}

/// Whether `case` ran `what` then the patterns of the first cases in order: `cs` are the
/// sessions along the way, `outs` what `what` and each pattern printed; no pattern but
/// perhaps the last one tried matched.
pub open spec fn cases_tried(what: ShellExpression, cases: Seq<(ShellExpression, ShellExpression)>, cs: Seq<ShellCore>, outs: Seq<Seq<char>>) -> bool {
    &&& outs.len() >= 1
    &&& cs.len() == outs.len() + 1
    &&& outs.len() <= cases.len() + 1
    &&& runs_printing(what, cs[0], cs[1], outs[0])
    &&& forall|j: int| 0 <= j < outs.len() - 1 ==> #[trigger] runs_printing_model(cases[j].0, cs[j + 1], cs[j + 2], outs[j + 1])
    &&& forall|j: int| 1 <= j < outs.len() - 1 ==> !case_matches(#[trigger] outs[j], outs[0])
}

/// Whether an exit flag that was set is still set: nothing clears it.
pub open spec fn flag_kept(old_flag: Option<u8>, new_flag: Option<u8>) -> bool {
    old_flag is Some ==> new_flag is Some
}

/// Whether a statement ends the expression it stands in: `Break` or `Return`.
pub open spec fn ends_expression(statement: ShellStatement) -> bool {
    statement is Break || statement is Return
}

/// Whether the `k`-th statement is reached: no statement before it ends the expression.
pub open spec fn reaches(statements: Seq<(ShellStatement, TaskRelation)>, k: int) -> bool {
    forall|j: int| 0 <= j < k ==> !ends_expression(#[trigger] statements[j].0)
}

/// Whether every statement before the `k`-th is a `Continue`.
pub open spec fn skips_to(statements: Seq<(ShellStatement, TaskRelation)>, k: int) -> bool {
    forall|j: int| 0 <= j < k ==> (#[trigger] statements[j].0) is Continue
}

/// Whether the host runs `after` keep the runs `before` first: runs are only ever added.
pub open spec fn runs_kept(before: Seq<HostRun>, after: Seq<HostRun>) -> bool {
    &&& before.len() <= after.len()
    &&& forall|i: int| 0 <= i < before.len() ==> after[i] == before[i]
}

/// Whether a run of `statements` along the sessions `cores` reached its end: every
/// statement ran, or one that ends the expression was reached.
pub open spec fn completed(statements: Seq<(ShellStatement, TaskRelation)>, cores: Seq<ShellCore>) -> bool {
    cores.len() - 1 == statements.len() || ends_expression(statements[cores.len() - 1].0)
}

/// The exit code a run ends with: the code of the `Return` that ended it, else the code
/// after the last statement that ran (`codes` holds the code after each statement).
pub open spec fn end_code(statements: Seq<(ShellStatement, TaskRelation)>, cores: Seq<ShellCore>, codes: Seq<u8>) -> u8 {
    if cores.len() - 1 < statements.len() && statements[cores.len() - 1].0 is Return {
        statements[cores.len() - 1].0->Return_0
    } else {
        codes.last()
    }
}

/// What a run of `statements` that reached its end went through, statement by statement:
/// the sessions `cores` from `before` to `after`, the outputs `outs`, the host runs `logs`,
/// and the exit codes `codes` (0 before the first statement, then the code after each);
/// it gave `rc` and printed `out`.
pub open spec fn run_matches(
    statements: Seq<(ShellStatement, TaskRelation)>,
    cores: Seq<ShellCore>,
    codes: Seq<u8>,
    outs: Seq<Seq<char>>,
    logs: Seq<Seq<HostRun>>,
    before: ShellCore,
    after: ShellCore,
    rc: u8,
    out: Seq<char>,
) -> bool {
    &&& executed(statements, cores, before, after)
    &&& printed(statements, cores, outs, logs)
    &&& codes.len() == cores.len()
    &&& codes[0] == 0
    &&& completed(statements, cores)
    &&& out == outs.last()
    &&& rc == end_code(statements, cores, codes)
}

/// What a statement that ran to its end did, the exit flag being clear after it: the
/// session before and after it, the expression's exit code before (`c0`) and after (`c1`)
/// it, and the host runs before and after it. `set` and `export` store what their value
/// printed, `let` the result of its operation, `read` what the user typed; `cd` moves;
/// `if` runs the branch its condition chose; a pipeline gives what `exec` returns; the
/// other builtins have their `builtin_effect` and `builtin_code`. Of `case`, `for`,
/// `while`, `source`, `history` and the history's re-run, only `builtin_effect` is said.
/// An expression a statement runs ran to its end (`run_matches`), each of its statements
/// having its own `full_effect`: `ran` says so for an expression on its own.
#[verifier::opaque]
pub open spec fn full_effect(
    statement: ShellStatement,
    before: ShellCore,
    after: ShellCore,
    c0: u8,
    c1: u8,
    l0: Seq<HostRun>,
    l1: Seq<HostRun>,
) -> bool
    decreases statement,
{
    match statement {
        ShellStatement::SetValue(k, v) => {
            &&& c1 == (if valid_var_name(k@) { 0u8 } else { 1u8 })
            &&& exists|mid: ShellCore, code: u8, printed: Seq<char>, cores: Seq<ShellCore>, codes: Seq<u8>, outs: Seq<Seq<char>>, logs: Seq<Seq<HostRun>>|
                #![trigger run_matches(v.statements@, cores, codes, outs, logs, before, mid, code, printed)]
            {
                &&& run_matches(v.statements@, cores, codes, outs, logs, before, mid, code, printed)
                &&& forall|j: int| 0 <= j < v.statements@.len() && j < cores.len() - 1
                    ==> full_effect(#[trigger] v.statements@[j].0, cores[j], cores[j + 1], codes[j], codes[j + 1], logs[j], logs[j + 1])
                &&& stored(k@, mid, after, printed)
            }
        },
        ShellStatement::Export(k, v) => {
            &&& c1 == (if valid_var_name(k@) { 0u8 } else { 1u8 })
            &&& exists|mid: ShellCore, code: u8, printed: Seq<char>, cores: Seq<ShellCore>, codes: Seq<u8>, outs: Seq<Seq<char>>, logs: Seq<Seq<HostRun>>|
                #![trigger run_matches(v.statements@, cores, codes, outs, logs, before, mid, code, printed)]
            {
                &&& run_matches(v.statements@, cores, codes, outs, logs, before, mid, code, printed)
                &&& forall|j: int| 0 <= j < v.statements@.len() && j < cores.len() - 1
                    ==> full_effect(#[trigger] v.statements@[j].0, cores[j], cores[j + 1], codes[j], codes[j + 1], logs[j], logs[j + 1])
                &&& exported(k@, mid, after, printed)
            }
        },
        ShellStatement::Let(d, a, op, b) => exists|mid1: ShellCore, r1: u8, p1: Seq<char>, cores1: Seq<ShellCore>, codes1: Seq<u8>, outs1: Seq<Seq<char>>, logs1: Seq<Seq<HostRun>>|
            #![trigger run_matches(a.statements@, cores1, codes1, outs1, logs1, before, mid1, r1, p1)]
        {
            &&& run_matches(a.statements@, cores1, codes1, outs1, logs1, before, mid1, r1, p1)
            &&& forall|j: int| 0 <= j < a.statements@.len() && j < cores1.len() - 1
                ==> full_effect(#[trigger] a.statements@[j].0, cores1[j], cores1[j + 1], codes1[j], codes1[j + 1], logs1[j], logs1[j + 1])
            &&& exists|mid2: ShellCore, r2: u8, p2: Seq<char>, cores2: Seq<ShellCore>, codes2: Seq<u8>, outs2: Seq<Seq<char>>, logs2: Seq<Seq<HostRun>>|
                #![trigger run_matches(b.statements@, cores2, codes2, outs2, logs2, mid1, mid2, r2, p2)]
            {
                &&& run_matches(b.statements@, cores2, codes2, outs2, logs2, mid1, mid2, r2, p2)
                &&& forall|j: int| 0 <= j < b.statements@.len() && j < cores2.len() - 1
                    ==> full_effect(#[trigger] b.statements@[j].0, cores2[j], cores2[j + 1], codes2[j], codes2[j + 1], logs2[j], logs2[j + 1])
                &&& let_done(d@, p1, op, p2, mid2, after, c1)
            }
        },
        ShellStatement::Read(_, len, key) => read_done(read_key(key), len, before, after, c1),
        ShellStatement::Cd(p) => cd_done(p@, before, after, c1),
        ShellStatement::If(c, t, e) => exists|code: u8, mid: ShellCore, o: Seq<char>, cores: Seq<ShellCore>, codes: Seq<u8>, outs: Seq<Seq<char>>, logs: Seq<Seq<HostRun>>|
            #![trigger run_matches(c.statements@, cores, codes, outs, logs, before, mid, code, o)]
        {
            &&& run_matches(c.statements@, cores, codes, outs, logs, before, mid, code, o)
            &&& forall|j: int| 0 <= j < c.statements@.len() && j < cores.len() - 1
                ==> full_effect(#[trigger] c.statements@[j].0, cores[j], cores[j + 1], codes[j], codes[j + 1], logs[j], logs[j + 1])
            &&& if code == 0 {
                exists|o2: Seq<char>, cores2: Seq<ShellCore>, codes2: Seq<u8>, outs2: Seq<Seq<char>>, logs2: Seq<Seq<HostRun>>|
                    #![trigger run_matches(t.statements@, cores2, codes2, outs2, logs2, mid, after, c1, o2)]
                {
                    &&& run_matches(t.statements@, cores2, codes2, outs2, logs2, mid, after, c1, o2)
                    &&& forall|j: int| 0 <= j < t.statements@.len() && j < cores2.len() - 1
                        ==> full_effect(#[trigger] t.statements@[j].0, cores2[j], cores2[j + 1], codes2[j], codes2[j + 1], logs2[j], logs2[j + 1])
                }
            } else {
                match e {
                    Some(x) => exists|o2: Seq<char>, cores2: Seq<ShellCore>, codes2: Seq<u8>, outs2: Seq<Seq<char>>, logs2: Seq<Seq<HostRun>>|
                        #![trigger run_matches(x.statements@, cores2, codes2, outs2, logs2, mid, after, c1, o2)]
                    {
                        &&& run_matches(x.statements@, cores2, codes2, outs2, logs2, mid, after, c1, o2)
                        &&& forall|j: int| 0 <= j < x.statements@.len() && j < cores2.len() - 1
                            ==> full_effect(#[trigger] x.statements@[j].0, cores2[j], cores2[j + 1], codes2[j], codes2[j + 1], logs2[j], logs2[j + 1])
                    },
                    None => after == mid && c1 == c0,
                }
            }
        },
        ShellStatement::Exec(t) => builtin_effect(statement, before, after)
            && exists|o: Seq<char>| #[trigger] exec_returns(before, t, l0, l1, (c1, o)),
        ShellStatement::Time(t) => builtin_effect(statement, before, after)
            && exists|o: Seq<char>| #[trigger] exec_returns(before, t, l0, l1, (c1, o)),
        ShellStatement::Value(_) | ShellStatement::Exit(_) | ShellStatement::Break | ShellStatement::Continue
            | ShellStatement::Return(_) => builtin_effect(statement, before, after) && c1 == c0,
        ShellStatement::Alias(_, _) | ShellStatement::Unalias(_) | ShellStatement::Function(_, _) | ShellStatement::PopdBack
            | ShellStatement::PopdFront | ShellStatement::Pushd(_) | ShellStatement::Dirs | ShellStatement::Output(_, _) =>
            builtin_effect(statement, before, after) && builtin_code(statement, before) == Some(c1),
        _ => builtin_effect(statement, before, after),
    }
}

/// Whether each statement run along `cores` had its `full_effect`, `codes` being the exit
/// code before the first statement (0) and after each one, `logs` the host runs by then.
/// When `done` is false, the last statement run is left out: an exit flag cut it short.
pub open spec fn steps_full(
    statements: Seq<(ShellStatement, TaskRelation)>,
    cores: Seq<ShellCore>,
    codes: Seq<u8>,
    logs: Seq<Seq<HostRun>>,
    done: bool,
) -> bool {
    &&& codes.len() == cores.len()
    &&& codes.len() >= 1
    &&& codes[0] == 0
    &&& forall|j: int|
        0 <= j < statements.len() && j < cores.len() - 1 && (j < cores.len() - 2 || done)
            ==> full_effect(#[trigger] statements[j].0, cores[j], cores[j + 1], codes[j], codes[j + 1], logs[j], logs[j + 1])
}

/// What an expression ran to when no exit flag cut its run short: it reached its end
/// (`run_matches`), gave `rc`, printed `out`, and each of its statements had its
/// `full_effect`.
#[verifier::opaque]
pub open spec fn ran(expression: ShellExpression, before: ShellCore, after: ShellCore, rc: u8, out: Seq<char>) -> bool {
    exists|cores: Seq<ShellCore>, codes: Seq<u8>, outs: Seq<Seq<char>>, logs: Seq<Seq<HostRun>>|
        #![trigger run_matches(expression.statements@, cores, codes, outs, logs, before, after, rc, out)]
        run_matches(expression.statements@, cores, codes, outs, logs, before, after, rc, out)
            && steps_full(expression.statements@, cores, codes, logs, true)
}

/// What an `if` did, `r` being the exit code of the branch that ran (`None` when none did):
/// the condition ran to a code; for 0 the `if` branch ran, else the `else` branch, or,
/// without one, nothing more.
#[verifier::opaque]
pub open spec fn if_ran(statement: ShellStatement, before: ShellCore, after: ShellCore, r: Option<u8>) -> bool {
    match statement {
        ShellStatement::If(c, t, e) => exists|code: u8, mid: ShellCore, o: Seq<char>| #[trigger] ran(c, before, mid, code, o) && if code == 0 {
            r is Some && exists|o2: Seq<char>| #[trigger] ran(t, mid, after, r->0, o2)
        } else {
            match e {
                Some(x) => r is Some && exists|o2: Seq<char>| #[trigger] ran(x, mid, after, r->0, o2),
                None => r is None && after == mid,
            }
        },
        _ => false,
    }
}

/// A run that reached its end, each statement having its effect, is what the expression
/// ran to.
proof fn lemma_ran_intro(
    expression: ShellExpression,
    cores: Seq<ShellCore>,
    codes: Seq<u8>,
    outs: Seq<Seq<char>>,
    logs: Seq<Seq<HostRun>>,
    before: ShellCore,
    after: ShellCore,
    rc: u8,
    out: Seq<char>,
)
    requires
        run_matches(expression.statements@, cores, codes, outs, logs, before, after, rc, out),
        steps_full(expression.statements@, cores, codes, logs, true),
    ensures
        ran(expression, before, after, rc, out),
{
    reveal(ran);
}

/// What an `if` did, by the branch that ran.
proof fn lemma_if_ran_intro(statement: ShellStatement, before: ShellCore, mid: ShellCore, after: ShellCore, code: u8, o: Seq<char>, r: Option<u8>, o2: Seq<char>)
    requires
        statement matches ShellStatement::If(c, t, e) && ran(c, before, mid, code, o) && if code == 0 {
            r matches Some(a) && ran(t, mid, after, a, o2)
        } else {
            match e {
                Some(x) => r matches Some(a) && ran(x, mid, after, a, o2),
                None => r is None && after == mid,
            }
        },
    ensures
        if_ran(statement, before, after, r),
{
    reveal(if_ran);
}

/// The builtins that neither run an expression nor ask the host or the user have their
/// `builtin_effect`, and the exit code `builtin_code` gives or the one before.
proof fn lemma_builtin_full(statement: ShellStatement, before: ShellCore, after: ShellCore, c0: u8, c1: u8, l0: Seq<HostRun>, l1: Seq<HostRun>)
    requires
        builtin_effect(statement, before, after),
        match statement {
            ShellStatement::SetValue(_, _) | ShellStatement::Export(_, _) | ShellStatement::Let(_, _, _, _) | ShellStatement::If(_, _, _)
                | ShellStatement::Read(_, _, _) | ShellStatement::Cd(_) | ShellStatement::Exec(_) | ShellStatement::Time(_) => false,
            ShellStatement::Value(_) | ShellStatement::Exit(_) | ShellStatement::Break | ShellStatement::Continue
                | ShellStatement::Return(_) => c1 == c0,
            ShellStatement::Alias(_, _) | ShellStatement::Unalias(_) | ShellStatement::Function(_, _) | ShellStatement::PopdBack
                | ShellStatement::PopdFront | ShellStatement::Pushd(_) | ShellStatement::Dirs | ShellStatement::Output(_, _) =>
                builtin_code(statement, before) == Some(c1),
            _ => true,
        },
    ensures
        full_effect(statement, before, after, c0, c1, l0, l1),
{
    reveal(full_effect);
}

/// `read`, `cd` and a pipeline have the effect their own contracts give them.
proof fn lemma_direct_full(statement: ShellStatement, before: ShellCore, after: ShellCore, c0: u8, c1: u8, l0: Seq<HostRun>, l1: Seq<HostRun>)
    requires
        match statement {
            ShellStatement::Read(_, len, key) => read_done(read_key(key), len, before, after, c1),
            ShellStatement::Cd(p) => cd_done(p@, before, after, c1),
            ShellStatement::Exec(t) => builtin_effect(statement, before, after)
                && exists|o: Seq<char>| #[trigger] exec_returns(before, t, l0, l1, (c1, o)),
            ShellStatement::Time(t) => builtin_effect(statement, before, after)
                && exists|o: Seq<char>| #[trigger] exec_returns(before, t, l0, l1, (c1, o)),
            _ => false,
        },
    ensures
        full_effect(statement, before, after, c0, c1, l0, l1),
{
    reveal(full_effect);
}

/// A `set` whose value ran to its end stored what the value printed.
proof fn lemma_set_effect(
    statement: ShellStatement,
    before: ShellCore,
    mid: ShellCore,
    after: ShellCore,
    c0: u8,
    c1: u8,
    l0: Seq<HostRun>,
    l1: Seq<HostRun>,
    code: u8,
    printed: Seq<char>,
)
    requires
        statement matches ShellStatement::SetValue(k, v) && ran(v, before, mid, code, printed) && stored(k@, mid, after, printed)
            && c1 == (if valid_var_name(k@) { 0u8 } else { 1u8 }),
    ensures
        full_effect(statement, before, after, c0, c1, l0, l1),
{
    reveal(full_effect);
    reveal(ran);
    let v = statement->SetValue_1;
    let (cores, codes, outs, logs) = choose|cores: Seq<ShellCore>, codes: Seq<u8>, outs: Seq<Seq<char>>, logs: Seq<Seq<HostRun>>|
        run_matches(v.statements@, cores, codes, outs, logs, before, mid, code, printed) && steps_full(v.statements@, cores, codes, logs, true);
    assert(run_matches(v.statements@, cores, codes, outs, logs, before, mid, code, printed));
}

/// An `export` whose value ran to its end exported what the value printed.
proof fn lemma_export_effect(
    statement: ShellStatement,
    before: ShellCore,
    mid: ShellCore,
    after: ShellCore,
    c0: u8,
    c1: u8,
    l0: Seq<HostRun>,
    l1: Seq<HostRun>,
    code: u8,
    printed: Seq<char>,
)
    requires
        statement matches ShellStatement::Export(k, v) && ran(v, before, mid, code, printed) && exported(k@, mid, after, printed)
            && c1 == (if valid_var_name(k@) { 0u8 } else { 1u8 }),
    ensures
        full_effect(statement, before, after, c0, c1, l0, l1),
{
    reveal(full_effect);
    reveal(ran);
    let v = statement->Export_1;
    let (cores, codes, outs, logs) = choose|cores: Seq<ShellCore>, codes: Seq<u8>, outs: Seq<Seq<char>>, logs: Seq<Seq<HostRun>>|
        run_matches(v.statements@, cores, codes, outs, logs, before, mid, code, printed) && steps_full(v.statements@, cores, codes, logs, true);
    assert(run_matches(v.statements@, cores, codes, outs, logs, before, mid, code, printed));
}

/// A `let` whose operands ran to their end stored the result of its operation.
proof fn lemma_let_effect(
    statement: ShellStatement,
    before: ShellCore,
    mid1: ShellCore,
    mid2: ShellCore,
    after: ShellCore,
    c0: u8,
    c1: u8,
    l0: Seq<HostRun>,
    l1: Seq<HostRun>,
    r1: u8,
    p1: Seq<char>,
    r2: u8,
    p2: Seq<char>,
)
    requires
        statement matches ShellStatement::Let(d, a, op, b) && ran(a, before, mid1, r1, p1) && ran(b, mid1, mid2, r2, p2)
            && let_done(d@, p1, op, p2, mid2, after, c1),
    ensures
        full_effect(statement, before, after, c0, c1, l0, l1),
{
    reveal(full_effect);
    reveal(ran);
    let a = statement->Let_1;
    let b = statement->Let_3;
    let (cores1, codes1, outs1, logs1) = choose|cores: Seq<ShellCore>, codes: Seq<u8>, outs: Seq<Seq<char>>, logs: Seq<Seq<HostRun>>|
        run_matches(a.statements@, cores, codes, outs, logs, before, mid1, r1, p1) && steps_full(a.statements@, cores, codes, logs, true);
    let (cores2, codes2, outs2, logs2) = choose|cores: Seq<ShellCore>, codes: Seq<u8>, outs: Seq<Seq<char>>, logs: Seq<Seq<HostRun>>|
        run_matches(b.statements@, cores, codes, outs, logs, mid1, mid2, r2, p2) && steps_full(b.statements@, cores, codes, logs, true);
    assert(run_matches(a.statements@, cores1, codes1, outs1, logs1, before, mid1, r1, p1));
    assert(run_matches(b.statements@, cores2, codes2, outs2, logs2, mid1, mid2, r2, p2));
}

/// An `if` ran the branch its condition chose.
proof fn lemma_if_effect(
    statement: ShellStatement,
    before: ShellCore,
    after: ShellCore,
    c0: u8,
    c1: u8,
    l0: Seq<HostRun>,
    l1: Seq<HostRun>,
    r: Option<u8>,
)
    requires
        if_ran(statement, before, after, r),
        c1 == match r {
            Some(a) => a,
            None => c0,
        },
    ensures
        full_effect(statement, before, after, c0, c1, l0, l1),
{
    reveal(full_effect);
    reveal(ran);
    reveal(if_ran);
    let c = statement->If_0;
    let t = statement->If_1;
    let e = statement->If_2;
    let (code, mid, o) = choose|code: u8, mid: ShellCore, o: Seq<char>| #[trigger] ran(c, before, mid, code, o) && if code == 0 {
        r is Some && exists|o2: Seq<char>| #[trigger] ran(t, mid, after, r->0, o2)
    } else {
        match e {
            Some(x) => r is Some && exists|o2: Seq<char>| #[trigger] ran(x, mid, after, r->0, o2),
            None => r is None && after == mid,
        }
    };
    let (cores, codes, outs, logs) = choose|cores: Seq<ShellCore>, codes: Seq<u8>, outs: Seq<Seq<char>>, logs: Seq<Seq<HostRun>>|
        run_matches(c.statements@, cores, codes, outs, logs, before, mid, code, o) && steps_full(c.statements@, cores, codes, logs, true);
    assert(run_matches(c.statements@, cores, codes, outs, logs, before, mid, code, o));
    if code == 0 {
        let o2 = choose|o2: Seq<char>| #[trigger] ran(t, mid, after, r->0, o2);
        let (cores2, codes2, outs2, logs2) = choose|cores: Seq<ShellCore>, codes: Seq<u8>, outs: Seq<Seq<char>>, logs: Seq<Seq<HostRun>>|
            run_matches(t.statements@, cores, codes, outs, logs, mid, after, c1, o2) && steps_full(t.statements@, cores, codes, logs, true);
        assert(run_matches(t.statements@, cores2, codes2, outs2, logs2, mid, after, c1, o2));
    } else {
        match e {
            Some(x) => {
                let o2 = choose|o2: Seq<char>| #[trigger] ran(x, mid, after, r->0, o2);
                let (cores2, codes2, outs2, logs2) = choose|cores: Seq<ShellCore>, codes: Seq<u8>, outs: Seq<Seq<char>>, logs: Seq<Seq<HostRun>>|
                    run_matches(x.statements@, cores, codes, outs, logs, mid, after, c1, o2) && steps_full(x.statements@, cores, codes, logs, true);
                assert(run_matches(x.statements@, cores2, codes2, outs2, logs2, mid, after, c1, o2));
            },
            None => {},
        }
    }
}

/// What `let` did once its operands printed `p1` and `p2` (the session then being `mid`):
/// the result of the operation stored under `dest` when it is a variable name; its exit
/// code `c`.
pub open spec fn let_done(dest: Seq<char>, p1: Seq<char>, op: MathOperator, p2: Seq<char>, mid: ShellCore, after: ShellCore, c: u8) -> bool {
    &&& after.storage_view() == match math_value(operand_value(p1), op, operand_value(p2)) {
        Ok(v) => if valid_var_name(dest) { mid.storage_view().insert(dest, decimal_text(v as int)) } else { mid.storage_view() },
        Err(_) => mid.storage_view(),
    }
    &&& after.environ_view() == mid.environ_view()
    &&& c == match math_value(operand_value(p1), op, operand_value(p2)) {
        Ok(_) => if valid_var_name(dest) { 0u8 } else { 1u8 },
        Err(_) => 1u8,
    }
}

/// What `read` did with exit code `c`: 0 stores what the user typed (cut to `max_size` bytes)
/// under `key`, which must be a variable name; 1 leaves the variables as they were.
pub open spec fn read_done(key: Seq<char>, max_size: Option<usize>, before: ShellCore, after: ShellCore, c: u8) -> bool {
    &&& c == 0 || c == 1
    &&& !valid_var_name(key) ==> c == 1
    &&& c == 0 ==> exists|input: Seq<char>| after.storage_view() == #[trigger] before.storage_view().insert(key, read_value_spec(input, max_size))
    &&& c == 1 ==> after.storage_view() == before.storage_view()
    &&& after.environ_view() == before.environ_view()
}

/// The variable `read` stores into: the one named, or `REPLY`.
pub open spec fn read_key(result_key: Option<String>) -> Seq<char> {
    match result_key {
        Some(k) => k@,
        None => "REPLY"@,
    }
}

/// What `cd` did with exit code `c`: 0 moved to `path`, the former directory becoming the
/// previous one; 1 stayed; the variables and the directory stack are as they were.
pub open spec fn cd_done(path: Seq<char>, before: ShellCore, after: ShellCore, c: u8) -> bool {
    &&& c == 0 ==> after.wrkdir() == path && after.prev() == before.wrkdir()
    &&& c != 0 ==> c == 1 && after.wrkdir() == before.wrkdir()
    &&& after.storage_view() == before.storage_view()
    &&& after.dirs_view() == before.dirs_view()
}

/// The paths a wildcard matched, each followed by a space.
pub open spec fn matches_text(paths: Seq<Seq<char>>) -> Seq<char>
    decreases paths.len(),
{
    if paths.len() == 0 {
        Seq::empty()
    } else {
        matches_text(paths.drop_last()) + paths.last() + seq![' ']
    }
}

/// The number of occurrences of `c`, and of a backslash followed by `c`, in `s`.
fn counts(s: &Vec<char>, c: char) -> (r: (u64, u64))
    requires
        s@.len() <= u64::MAX,
    ensures
        r.0 == count_char(s@, c),
        r.1 == count_escaped(s@, c),
{
    let mut n: u64 = 0;
    let mut e: u64 = 0;
    for i in 0..s.len()
        invariant
            s@.len() <= u64::MAX,
            n == count_char(s@.subrange(0, i as int), c),
            e == count_escaped(s@.subrange(0, i as int), c),
            n <= i,
            e <= i,
    {
        let ghost pre = s@.subrange(0, i as int);
        let ghost post = s@.subrange(0, i + 1);
        assert(post.drop_last() =~= pre);
        if s[i] == c {
            n = n + 1;
            if i >= 1 && s[i - 1] == '\\' {
                e = e + 1;
            }
        }
    }
    assert(s@.subrange(0, s@.len() as int) =~= s@);
    (n, e)
}

/// Whether a value holds an unescaped wildcard.
fn wildcard_in(s: &String) -> (r: bool)
    ensures
        r == has_wildcard(s@),
{
    let v = chars_of(s.as_str());
    let n = v.len();
    assert(n as int <= u64::MAX);
    let (stars, escaped_stars) = counts(&v, '*');
    let (marks, escaped_marks) = counts(&v, '?');
    (stars > 0 && stars != escaped_stars) || (marks > 0 && marks != escaped_marks)
}

/// Whether a report reached the user: a report that did not sets the exit flag to 255.
/// The runner handed one more message to the user stream: `after` is `before` and one
/// message.
pub open spec fn sent_one(before: Seq<ShellStreamMessage>, after: Seq<ShellStreamMessage>) -> bool {
    after.len() > 0 && after == before.push(after.last())
}

/// The text a prompt shows: the prompt, or nothing.
pub open spec fn prompt_text(prompt: Option<String>) -> Seq<char> {
    match prompt {
        Some(p) => p@,
        None => Seq::empty(),
    }
}

pub open spec fn reported(old_flag: Option<u8>, new_flag: Option<u8>) -> bool {
    new_flag == old_flag || new_flag == Some(ABORT_EXIT_CODE)
}

/// A one-element directory list.
fn one_dir(dir: String) -> (r: VecDeque<String>)
    ensures
        r@ == seq![dir],
{
    let mut r: VecDeque<String> = VecDeque::new();
    r.push_back(dir);
    assert(r@ =~= seq![dir]);
    r
}

/// The paths a wildcard matched, each followed by a space.
pub fn join_matches(paths: &Vec<String>) -> (r: String)
    ensures
        r@ == matches_text(crate::session::texts(paths@)),
{
    let mut r = String::new();
    let ghost t = crate::session::texts(paths@);
    for i in 0..paths.len()
        invariant
            t == crate::session::texts(paths@),
            r@ == matches_text(t.take(i as int)),
    {
        assert(t.take(i + 1).drop_last() =~= t.take(i as int));
        r.append(paths[i].as_str());
        r.append(" ");
        proof { reveal_strlit(" "); }
        assert(r@ =~= matches_text(t.take(i + 1)));
    }
    assert(t.take(paths@.len() as int) =~= t);
    r
}

impl ShellRunner {
    /// ### new
    ///
    /// A runner with nothing buffered, no exit flag and the whole step budget.
    pub fn new() -> (r: ShellRunner)
        ensures
            r.buffer is None,
            r.exit_flag is None,
            !r.break_loop,
            r.steps == STEP_BUDGET,
            r.sent@ == Seq::<ShellStreamMessage>::empty(),
            r.host_runs@ == Seq::<HostRun>::empty(),
    {
        ShellRunner { buffer: None, exit_flag: None, break_loop: false, steps: STEP_BUDGET, sent: Ghost(Seq::empty()), host_runs: Ghost(Seq::empty()), heard: Ghost(Seq::empty()), last_run: Ghost(None), loop_trail: Ghost(Seq::empty()) }
    }

    /// A runner that may execute `steps` statements.
    pub fn with_budget(steps: u64) -> (r: ShellRunner)
        ensures
            r.buffer is None,
            r.exit_flag is None,
            !r.break_loop,
            r.steps == steps,
            r.sent@ == Seq::<ShellStreamMessage>::empty(),
            r.host_runs@ == Seq::<HostRun>::empty(),
    {
        ShellRunner { buffer: None, exit_flag: None, break_loop: false, steps, sent: Ghost(Seq::empty()), host_runs: Ghost(Seq::empty()), heard: Ghost(Seq::empty()), last_run: Ghost(None), loop_trail: Ghost(Seq::empty()) }
    }

    /// Uses one step of the budget; once it is spent, the exit flag is set to 255.
    fn tick(&mut self) -> (r: bool)
        ensures
            r == (old(self).steps > 0),
            r ==> final(self).steps == old(self).steps - 1 && final(self).exit_flag == old(self).exit_flag,
            !r ==> final(self).steps == 0 && final(self).exit_flag == Some(ABORT_EXIT_CODE),
            final(self).buffer == old(self).buffer,
            final(self).break_loop == old(self).break_loop,
            final(self).sent == old(self).sent,
            final(self).host_runs == old(self).host_runs,
            final(self).heard == old(self).heard,
    {
        if self.steps == 0 {
            self.exit_flag = Some(ABORT_EXIT_CODE);
            false
        } else {
            self.steps = self.steps - 1;
            true
        }
    }

    /// Reports a message to the user; when the user stream hung up, the exit flag is set.
    fn report(&mut self, core: &ShellCore, message: ShellStreamMessage)
        ensures
            reported(old(self).exit_flag, final(self).exit_flag),
            final(self).steps == old(self).steps,
            final(self).buffer == old(self).buffer,
            final(self).break_loop == old(self).break_loop,
            final(self).sent@ == old(self).sent@.push(message),
            final(self).host_runs == old(self).host_runs,
    {
        if !self.send_user(core, message) {
            self.exit_flag = Some(ABORT_EXIT_CODE);
        }
    }

    /// Hands a message to the user stream; `false` when the user stream hung up.
    fn send_user(&mut self, core: &ShellCore, message: ShellStreamMessage) -> (r: bool)
        ensures
            final(self).exit_flag == old(self).exit_flag,
            final(self).steps == old(self).steps,
            final(self).buffer == old(self).buffer,
            final(self).break_loop == old(self).break_loop,
            final(self).sent@ == old(self).sent@.push(message),
            final(self).host_runs == old(self).host_runs,
    {
        proof {
            self.sent = Ghost(self.sent@.push(message));
        }
        core.sstream.send(message)
    }

    //@! Statements

    /// ### alias
    ///
    /// `alias name command` sets an alias (1 when the name is not valid); `alias name`
    /// reports the alias (1, and a `NoSuchAlias` error, when it does not exist); `alias`
    /// reports every alias.
    pub fn alias(&mut self, core: &mut ShellCore, name: Option<String>, command: Option<String>) -> (rc: u8)
        requires
            old(core).wf(),
        ensures
            final(self).host_runs == old(self).host_runs,
            final(core).wf(),
            match (name, command) {
                (Some(n), Some(c)) => rc == (if valid_command_name(n@) { 0u8 } else { 1u8 })
                    && final(core).alias_view() == (if valid_command_name(n@) { old(core).alias_view().insert(n@, c@) } else { old(core).alias_view() }),
                (Some(n), None) => rc == (if old(core).alias_view().dom().contains(n@) { 0u8 } else { 1u8 })
                    && final(core).alias_view() == old(core).alias_view(),
                (None, None) => rc == 0 && final(core).alias_view() == old(core).alias_view(),
                (None, Some(_)) => rc == 1 && final(core).alias_view() == old(core).alias_view(),
            },
            reported(old(self).exit_flag, final(self).exit_flag),
            final(self).steps == old(self).steps,
            final(core).storage_view() == old(core).storage_view(),
            final(core).dirs_view() == old(core).dirs_view(),
            command is Some ==> final(self).sent == old(self).sent,
            (name, command) matches (Some(n), None) ==> {
                &&& sent_one(old(self).sent@, final(self).sent@)
                &&& if old(core).alias_view().dom().contains(n@) {
                    final(self).sent@.last() matches ShellStreamMessage::Alias(l) && l@.len() == 1 && l@[0].0@ == n@
                        && l@[0].1@ == old(core).alias_view()[n@]
                } else {
                    final(self).sent@.last() matches ShellStreamMessage::Error(ShellError::NoSuchAlias(x)) && x@ == n@
                }
            },
            (name, command) matches (None, None) ==> {
                &&& sent_one(old(self).sent@, final(self).sent@)
                &&& final(self).sent@.last() matches ShellStreamMessage::Alias(l) && l@.len() == old(core).alias.key_seq().len()
                    && (forall|i: int| 0 <= i < l@.len() ==> #[trigger] l@[i].0@ == old(core).alias.key_seq()[i])
                    && (forall|i: int| 0 <= i < l@.len() ==> old(core).alias_view()[#[trigger] l@[i].0@] == l@[i].1@)
            },
    {
        match (name, command) {
            (Some(n), Some(c)) => {
                if core.alias_set(n, c) {
                    0
                } else {
                    1
                }
            },
            (Some(n), None) => {
                match core.alias_get(&n) {
                    Some(cmd) => {
                        let mut list: Vec<(String, String)> = Vec::new();
                        list.push((n, cmd));
                        self.report(core, ShellStreamMessage::Alias(list));
                        0
                    },
                    None => {
                        self.report(core, ShellStreamMessage::Error(ShellError::NoSuchAlias(n)));
                        1
                    },
                }
            },
            (None, None) => {
                let list = core.alias_get_all();
                self.report(core, ShellStreamMessage::Alias(list));
                0
            },
            (None, Some(_)) => 1,
        }
    }

    /// ### history
    ///
    /// Works on the history: `Clear` empties it; `Del(i)` removes entry `i` (1 and an
    /// `OutOfHistoryRange` error when there is none); `Print` sends the entries to the user,
    /// oldest first, one per line; `Read(file)` adds the file's non-empty lines as entries,
    /// in order; `Write(file, truncate)` writes the entries to the file, oldest first, one
    /// per line, truncating it or appending to it. A file that cannot be read or written is
    /// reported and gives 1.
    pub fn history(&mut self, core: &mut ShellCore, options: HistoryOptions) -> (rc: u8)
        requires
            old(core).wf(),
        ensures
            final(self).host_runs == old(self).host_runs,
            final(core).wf(),
            final(self).steps == old(self).steps,
            reported(old(self).exit_flag, final(self).exit_flag),
            final(core).storage_view() == old(core).storage_view(),
            match options {
                HistoryOptions::Clear => rc == 0 && final(core).history_view() == Seq::<Seq<char>>::empty(),
                HistoryOptions::Del(i) => if i < old(core).history_view().len() {
                    rc == 0 && final(core).history_view() == old(core).history_view().remove(i as int)
                } else {
                    rc == 1 && final(core).history_view() == old(core).history_view()
                },
                HistoryOptions::Print => rc == 0 && final(core).history_view() == old(core).history_view(),
                HistoryOptions::Write(_, _) => (rc == 0 || rc == 1) && final(core).history_view() == old(core).history_view(),
                HistoryOptions::Read(_) => (rc == 0 || rc == 1) && (rc == 1 ==> final(core).history_view() == old(core).history_view()),
            },
    {
        match options {
            HistoryOptions::Clear => {
                core.history_clear();
                0
            },
            HistoryOptions::Del(i) => match core.history_remove(i) {
                Some(_) => 0,
                None => {
                    self.report(core, ShellStreamMessage::Error(ShellError::OutOfHistoryRange));
                    1
                },
            },
            HistoryOptions::Print => {
                let text = history_text(core);
                self.report(core, ShellStreamMessage::Output((Some(text), None)));
                0
            },
            HistoryOptions::Write(file, truncate) => {
                let text = history_text(core);
                let mode = if truncate { FileRedirectionType::Truncate } else { FileRedirectionType::Append };
                match core.host.write_file(&file, mode, &text) {
                    Ok(()) => 0,
                    Err(_) => {
                        self.report(core, ShellStreamMessage::Error(ShellError::PermissionDenied(file)));
                        1
                    },
                }
            },
            HistoryOptions::Read(file) => match core.host.read_file(&file) {
                Ok(content) => {
                    let lines = crate::parsers::tokenizer::split_lines_exec(&chars_of(content.as_str()));
                    for i in 0..lines.len()
                        invariant
                            core.wf(),
                            core.storage_view() == old(core).storage_view(),
                    {
                        if lines[i].len() > 0 {
                            core.history_push(crate::text::string_from_chars(&lines[i]));
                        }
                    }
                    0
                },
                Err(e) => {
                    let err = match e {
                        FileError::NotFound => ShellError::NoSuchFileOrDirectory(file),
                        FileError::PermissionDenied => ShellError::PermissionDenied(file),
                        FileError::Other => ShellError::Other,
                    };
                    self.report(core, ShellStreamMessage::Error(err));
                    1
                },
            },
        }
    }

    /// ### unalias
    ///
    /// Removes an alias: 0, or 1 and a `NoSuchAlias` error when it does not exist.
    pub fn unalias(&mut self, core: &mut ShellCore, name: String) -> (rc: u8)
        requires
            old(core).wf(),
        ensures
            final(self).host_runs == old(self).host_runs,
            final(core).wf(),
            rc == (if old(core).alias_view().dom().contains(name@) { 0u8 } else { 1u8 }),
            final(core).alias_view() == old(core).alias_view().remove(name@),
            reported(old(self).exit_flag, final(self).exit_flag),
            final(self).steps == old(self).steps,
            final(core).storage_view() == old(core).storage_view(),
    {
        match core.unalias(&name) {
            Some(_) => 0,
            None => {
                self.report(core, ShellStreamMessage::Error(ShellError::NoSuchAlias(name)));
                1
            },
        }
    }

    /// ### change_directory
    ///
    /// Changes directory: 0, or 1 and the error when the directory cannot be entered.
    pub fn change_directory(&mut self, core: &mut ShellCore, path: String) -> (rc: u8)
        requires
            old(core).wf(),
        ensures
            final(self).host_runs == old(self).host_runs,
            final(core).wf(),
            rc == 0 ==> final(core).wrkdir() == path@ && final(core).prev() == old(core).wrkdir(),
            rc != 0 ==> rc == 1 && final(core).wrkdir() == old(core).wrkdir(),
            reported(old(self).exit_flag, final(self).exit_flag),
            final(self).steps == old(self).steps,
            final(core).storage_view() == old(core).storage_view(),
            final(core).dirs_view() == old(core).dirs_view(),
            cd_done(path@, *old(core), *final(core), rc),
    {
        match core.change_directory(path) {
            Ok(()) => 0,
            Err(err) => {
                self.report(core, ShellStreamMessage::Error(err));
                1
            },
        }
    }

    /// ### dirs
    ///
    /// Reports the directory stack.
    pub fn dirs(&mut self, core: &mut ShellCore) -> (rc: u8)
        requires
            old(core).wf(),
        ensures
            final(self).host_runs == old(self).host_runs,
            *final(core) == *old(core),
            rc == 0,
            reported(old(self).exit_flag, final(self).exit_flag),
            final(self).steps == old(self).steps,
    {
        let dirs = core.dirs();
        self.report(core, ShellStreamMessage::Dirs(dirs));
        0
    }

    /// ### exit
    ///
    /// Stops the expression with `exit_code`.
    pub fn exit(&mut self, core: &mut ShellCore, exit_code: u8)
        ensures
            final(self).exit_flag == Some(exit_code),
            *final(core) == *old(core),
            final(self).steps == old(self).steps,
            final(self).heard == old(self).heard,
            final(self).host_runs == old(self).host_runs,
    {
        self.exit_flag = Some(exit_code);
    }

    /// ### function
    ///
    /// Defines a function: 0, or 1 when the name is not valid.
    pub fn function(&mut self, core: &mut ShellCore, name: String, expression: ShellExpression) -> (rc: u8)
        requires
            old(core).wf(),
        ensures
            final(self).host_runs == old(self).host_runs,
            final(core).wf(),
            rc == (if valid_command_name(name@) { 0u8 } else { 1u8 }),
            final(core).functions_view() == (if valid_command_name(name@) { old(core).functions_view().insert(name@, expression) } else { old(core).functions_view() }),
            *final(self) == *old(self),
    {
        if core.function_set(name, expression) {
            0
        } else {
            1
        }
    }

    /// ### popd_back
    ///
    /// Removes the oldest directory and reports it; the stack keeps at least one
    /// directory, so with one or none it fails with 1.
    pub fn popd_back(&mut self, core: &mut ShellCore) -> (rc: u8)
        requires
            old(core).wf(),
        ensures
            final(self).host_runs == old(self).host_runs,
            final(core).wf(),
            old(core).dirs_view().len() > 1 ==> rc == 0 && final(core).dirs_view() == old(core).dirs_view().drop_last(),
            old(core).dirs_view().len() <= 1 ==> rc == 1 && final(core).dirs_view() == old(core).dirs_view(),
            reported(old(self).exit_flag, final(self).exit_flag),
            final(self).steps == old(self).steps,
            final(core).wrkdir() == old(core).wrkdir(),
    {
        if core.dirs.len() <= 1 {
            return 1;
        }
        match core.popd_back() {
            Some(dir) => {
                self.report(core, ShellStreamMessage::Dirs(one_dir(dir)));
                0
            },
            None => 1,
        }
    }

    /// ### popd_front
    ///
    /// Removes the most recent directory and reports it; the stack keeps at least one
    /// directory, so with one or none it fails with 1.
    pub fn popd_front(&mut self, core: &mut ShellCore) -> (rc: u8)
        requires
            old(core).wf(),
        ensures
            final(self).host_runs == old(self).host_runs,
            final(core).wf(),
            old(core).dirs_view().len() > 1 ==> rc == 0 && final(core).dirs_view() == old(core).dirs_view().drop_first(),
            old(core).dirs_view().len() <= 1 ==> rc == 1 && final(core).dirs_view() == old(core).dirs_view(),
            reported(old(self).exit_flag, final(self).exit_flag),
            final(self).steps == old(self).steps,
            final(core).wrkdir() == old(core).wrkdir(),
    {
        if core.dirs.len() <= 1 {
            return 1;
        }
        match core.popd_front() {
            Some(dir) => {
                self.report(core, ShellStreamMessage::Dirs(one_dir(dir)));
                0
            },
            None => 1,
        }
    }

    /// ### pushd
    ///
    /// Pushes a directory on the stack and reports the stack.
    pub fn pushd(&mut self, core: &mut ShellCore, dir: String) -> (rc: u8)
        requires
            old(core).wf(),
        ensures
            final(self).host_runs == old(self).host_runs,
            final(core).wf(),
            rc == 0,
            final(core).dirs_view() == dirs_after_push(old(core).dirs_view(), dir@),
            reported(old(self).exit_flag, final(self).exit_flag),
            final(self).steps == old(self).steps,
            final(core).wrkdir() == old(core).wrkdir(),
    {
        core.pushd(dir);
        self.dirs(core);
        0
    }

    /// The pattern a value stands for once its variable is expanded, when it holds an
    /// unescaped wildcard: the value as a path under the working directory.
    pub fn glob_pattern(&self, core: &ShellCore, value: &String) -> (r: Option<String>)
        requires
            core.wf(),
        ensures
            has_wildcard(expanded_value(core, value@)) ==> (r matches Some(p) && p@ == joined_path(core.wrkdir(), expanded_value(core, value@))),
            !has_wildcard(expanded_value(core, value@)) ==> r is None,
    {
        let out = self.expand_variable(core, value);
        if wildcard_in(&out) {
            Some(join_path(&core.wrk_dir, &out))
        } else {
            None
        }
    }

    /// A value with its variable, if any, replaced by the variable's value.
    pub fn expand_variable(&self, core: &ShellCore, value: &String) -> (r: String)
        requires
            core.wf(),
        ensures
            r@ == expanded_value(core, value@),
    {
        let v = chars_of(value.as_str());
        let n = v.len();
        let key: Option<String> = if n >= 2 && v[0] == '$' && v[1] == '{' {
            if n >= 3 {
                Some(string_from_range(&v, 2, n - 1))
            } else {
                Some(String::new())
            }
        } else if n >= 1 && v[0] == '$' {
            Some(string_from_range(&v, 1, n))
        } else {
            None
        };
        proof {
            if n >= 1 {
                assert(v@.drop_first() =~= v@.subrange(1, n as int));
            }
        }
        match key {
            Some(k) => match core.value_get(&k) {
                Some(x) => x,
                None => String::new(),
            },
            None => value.clone(),
        }
    }

    /// ### eval_value
    ///
    /// Evaluates a value: its variable is expanded, then a value that holds an unescaped
    /// wildcard becomes the paths the wildcard matches under the working directory, each
    /// followed by a space (nothing when the pattern is invalid). Which paths match is the
    /// host's answer, read from the file system, so the contract states only the shape of
    /// the result there.
    pub fn eval_value(&self, core: &ShellCore, value: String) -> (r: String)
        requires
            core.wf(),
        ensures
            !has_wildcard(expanded_value(core, value@)) ==> r@ == expanded_value(core, value@),
            has_wildcard(expanded_value(core, value@)) ==> exists|paths: Seq<Seq<char>>| r@ == matches_text(paths),
    {
        match self.glob_pattern(core, &value) {
            Some(pattern) => match core.host.glob(&pattern) {
                Some(paths) => {
                    let r = join_matches(&paths);
                    assert(r@ == matches_text(crate::session::texts(paths@)));
                    r
                },
                None => {
                    let r = String::new();
                    assert(r@ == matches_text(Seq::<Seq<char>>::empty()));
                    r
                },
            },
            None => self.expand_variable(core, &value),
        }
    }

    /// ### redirect_function_output
    ///
    /// Sends a function's output where its redirection says: to the user as stdout or
    /// stderr, or to a file (an error when the file cannot be written).
    pub fn redirect_function_output(&mut self, core: &ShellCore, redirection: Redirection, output: String) -> (r: Result<(), ShellError>)
        ensures
            final(self).host_runs == old(self).host_runs,
            !(redirection is File) ==> r is Ok,
            final(self).exit_flag == old(self).exit_flag,
            final(self).steps == old(self).steps,
            final(self).buffer == old(self).buffer,
            final(self).break_loop == old(self).break_loop,
            redirection is Stdout ==> final(self).sent@ == old(self).sent@.push(ShellStreamMessage::Output((Some(output), None))),
            redirection is Stderr ==> final(self).sent@ == old(self).sent@.push(ShellStreamMessage::Output((None, Some(output)))),
            redirection is File ==> final(self).sent@ == old(self).sent@,
            r matches Err(e) ==> e matches ShellError::TaskError(te) && te.code == TaskErrorCode::IoError
                && (redirection matches Redirection::File(f, _)
                    && exists|reason: Seq<char>| te.message@ == "Could not write to file "@ + f@ + ": "@ + reason),
    {
        match redirection {
            Redirection::Stdout => {
                let _ = self.send_user(core, ShellStreamMessage::Output((Some(output), None)));
                Ok(())
            },
            Redirection::Stderr => {
                let _ = self.send_user(core, ShellStreamMessage::Output((None, Some(output))));
                Ok(())
            },
            Redirection::File(file, mode) => match core.host.write_file(&file, mode, &output) {
                Ok(()) => Ok(()),
                Err(e) => {
                    let mut message = owned("Could not write to file ");
                    message.append(file.as_str());
                    message.append(": ");
                    message.append(e.as_str());
                    assert(message@ == "Could not write to file "@ + file@ + ": "@ + e@);
                    Err(ShellError::TaskError(TaskError::new(TaskErrorCode::IoError, message)))
                },
            },
        }
    }
}

/// `path` relative to `dir`.
fn join_path(dir: &String, path: &String) -> (r: String)
    ensures
        r@ == joined_path(dir@, path@),
{
    let pv = chars_of(path.as_str());
    let dv = chars_of(dir.as_str());
    if (pv.len() > 0 && pv[0] == '/') || dv.len() == 0 {
        return path.clone();
    }
    let mut r = dir.clone();
    if dv[dv.len() - 1] != '/' {
        r.append("/");
        proof { reveal_strlit("/"); }
    }
    r.append(path.as_str());
    proof {
        assert(dv@.last() == dv@[dv@.len() - 1]);
    }
    r
}

/// What a message from the user asks of a running pipeline: a message to forward to it,
/// or an interruption of the whole expression.
pub enum TaskControl {
    Forward(TaskMessageTx),
    Interrupt,
}

/// ### task_control
///
/// What a message from the user asks of a running pipeline: input, kill and signals are
/// forwarded to it; an interrupt stops the expression.
pub fn task_control(message: UserStreamMessage) -> (r: TaskControl)
    ensures
        match message {
            UserStreamMessage::Input(s) => r == TaskControl::Forward(TaskMessageTx::Input(s)),
            UserStreamMessage::Kill => r == TaskControl::Forward(TaskMessageTx::Kill),
            UserStreamMessage::Signal(sig) => r == TaskControl::Forward(TaskMessageTx::Signal(sig)),
            UserStreamMessage::Interrupt => r == TaskControl::Interrupt,
        },
{
    match message {
        UserStreamMessage::Input(s) => TaskControl::Forward(TaskMessageTx::Input(s)),
        UserStreamMessage::Kill => TaskControl::Forward(TaskMessageTx::Kill),
        UserStreamMessage::Signal(sig) => TaskControl::Forward(TaskMessageTx::Signal(sig)),
        UserStreamMessage::Interrupt => TaskControl::Interrupt,
    }
}

/// ### relay_task_message
///
/// What a pipeline's message becomes for the user: an error is reported as a task error;
/// output (when there is some) is reported as is, and its stdout is added to `output`.
pub fn relay_task_message(message: TaskMessageRx, output: &mut String) -> (r: Option<ShellStreamMessage>)
    ensures
        match message {
            TaskMessageRx::Error(e) => r == Some(ShellStreamMessage::Error(ShellError::TaskError(e))) && final(output)@ == old(output)@,
            TaskMessageRx::Output((out, err)) => {
                &&& (out is Some || err is Some) ==> r == Some(ShellStreamMessage::Output((out, err)))
                &&& (out is None && err is None) ==> r is None
                &&& final(output)@ == old(output)@ + (match out { Some(o) => o@, None => Seq::<char>::empty() })
            },
        },
{
    match message {
        TaskMessageRx::Error(e) => Some(ShellStreamMessage::Error(ShellError::TaskError(e))),
        TaskMessageRx::Output((out, err)) => {
            match &out {
                Some(o) => output.append(o.as_str()),
                None => {
                    assert(old(output)@ + Seq::<char>::empty() =~= old(output)@);
                },
            }
            if out.is_some() || err.is_some() {
                Some(ShellStreamMessage::Output((out, err)))
            } else {
                None
            }
        },
    }
}

/// Whether the next block of a task chain runs: after `&&` only when the last exit code
/// is 0, after `||` only when it is not; after a pipe or no relation always.
pub open spec fn block_runs(relation: TaskRelation, rc: u8) -> bool {
    match relation {
        TaskRelation::And => rc == 0,
        TaskRelation::Or => rc != 0,
        TaskRelation::Pipe => true,
        TaskRelation::Unrelated => true,
    }
}

/// `s` without its final newline, when it ends with one.
pub open spec fn without_final_newline(s: Seq<char>) -> Seq<char> {
    if s.len() > 0 && s.last() == '\n' {
        s.drop_last()
    } else {
        s
    }
}

/// Where running a task chain stands: the last exit code, the output so far, how many
/// block results were used, and whether the chain stopped.
pub struct RunState {
    pub code: u8,
    pub out: Seq<char>,
    pub used: nat,
    pub stopped: bool,
}

/// One block of a task chain, given the results of the blocks that run (exit code,
/// output, whether the chain stops there): the first block runs, a later one when
/// `block_runs` says so after the last code; a block that runs takes the next result.
pub open spec fn run_step(blocks: Seq<ChainBlock>, results: Seq<(u8, Seq<char>, bool)>, st: RunState, i: int) -> RunState {
    if st.stopped || !(i == 0 || block_runs(blocks[i].prev, st.code)) {
        st
    } else if st.used < results.len() {
        let e = results[st.used as int];
        RunState { code: e.0, out: st.out + e.1, used: st.used + 1, stopped: e.2 }
    } else {
        RunState { code: st.code, out: st.out, used: st.used, stopped: true }
    }
}

/// Where running a task chain stands after its first `k` blocks.
pub open spec fn run_prefix(blocks: Seq<ChainBlock>, results: Seq<(u8, Seq<char>, bool)>, k: nat) -> RunState
    decreases k,
{
    if k == 0 {
        RunState { code: 0, out: Seq::empty(), used: 0, stopped: false }
    } else {
        run_step(blocks, results, run_prefix(blocks, results, (k - 1) as nat), k - 1)
    }
}

/// What running a task chain gives, given the results of the blocks that run: the last
/// exit code, and the outputs one after the other without their final newline.
pub open spec fn chain_outcome(blocks: Seq<ChainBlock>, results: Seq<(u8, Seq<char>, bool)>) -> (u8, Seq<char>) {
    let st = run_prefix(blocks, results, blocks.len());
    (st.code, without_final_newline(st.out))
}

/// Block results as plain values.
pub open spec fn results_view(results: Seq<(u8, String, bool)>) -> Seq<(u8, Seq<char>, bool)> {
    Seq::new(results.len(), |i: int| (results[i].0, results[i].1@, results[i].2))
}

/// A chain that stopped stays stopped.
proof fn lemma_stopped_stays(blocks: Seq<ChainBlock>, results: Seq<(u8, Seq<char>, bool)>, k: nat, n: nat)
    requires
        k <= n,
        run_prefix(blocks, results, k).stopped,
    ensures
        run_prefix(blocks, results, n) == run_prefix(blocks, results, k),
    decreases n - k,
{
    if k < n {
        lemma_stopped_stays(blocks, results, k, (n - 1) as nat);
    }
}

/// Before the chain stops, more results do not change where it stands.
proof fn lemma_prefix_extend(blocks: Seq<ChainBlock>, results: Seq<(u8, Seq<char>, bool)>, e: (u8, Seq<char>, bool), k: nat)
    requires
        !run_prefix(blocks, results, k).stopped,
    ensures
        run_prefix(blocks, results.push(e), k) == run_prefix(blocks, results, k),
        run_prefix(blocks, results, k).used <= results.len(),
    decreases k,
{
    if k > 0 {
        let prev = run_prefix(blocks, results, (k - 1) as nat);
        if prev.stopped {
            assert(run_prefix(blocks, results, k) == prev);
        } else {
            lemma_prefix_extend(blocks, results, e, (k - 1) as nat);
            if prev.used < results.len() {
                assert(results.push(e)[prev.used as int] == results[prev.used as int]);
            }
        }
    }
}

/// What running a task chain of `blocks` gives, given the results of the blocks that run.
pub fn chain_result(blocks: &Vec<ChainBlock>, results: &Vec<(u8, String, bool)>) -> (r: (u8, String))
    ensures
        r.0 == chain_outcome(blocks@, results_view(results@)).0,
        r.1@ == chain_outcome(blocks@, results_view(results@)).1,
{
    let ghost res = results_view(results@);
    let mut code: u8 = 0;
    let mut out = String::new();
    let mut used: usize = 0;
    let mut i: usize = 0;
    let n = blocks.len();
    while i < n
        invariant
            n == blocks@.len(),
            i <= n,
            used <= results@.len(),
            res == results_view(results@),
            run_prefix(blocks@, res, i as nat) == (RunState { code, out: out@, used: used as nat, stopped: false }),
        decreases n - i,
    {
        if i == 0 || next_block_runs(blocks[i].prev, code) {
            if used < results.len() {
                let ghost before = out@;
                code = results[used].0;
                out.append(results[used].1.as_str());
                let stop = results[used].2;
                used = used + 1;
                if stop {
                    proof { lemma_stopped_stays(blocks@, res, (i + 1) as nat, n as nat); }
                    let out = trim_final_newline(out);
                    return (code, out);
                }
            } else {
                proof { lemma_stopped_stays(blocks@, res, (i + 1) as nat, n as nat); }
                let out = trim_final_newline(out);
                return (code, out);
            }
        }
        i = i + 1;
    }
    let out = trim_final_newline(out);
    (code, out)
}

/// What `exec` may return for `task` on the session `core`, given the pipelines handed to
/// the host before and after it: the outcome of the chain `chain_task` cuts, for the
/// results of the blocks that ran; for a pipeline that calls no function, one pipeline
/// handed to the host, whose exit code and output (without its final newline) it is.
pub open spec fn exec_returns(core: ShellCore, task: Task, runs_before: Seq<HostRun>, runs_after: Seq<HostRun>, r: (u8, Seq<char>)) -> bool {
    let blocks = chain_layout(&core, task.chain());
    &&& exists|results: Seq<(u8, Seq<char>, bool)>| {
        &&& #[trigger] run_prefix(blocks, results, blocks.len()).used == results.len()
        &&& r.0 == chain_outcome(blocks, results).0
        &&& r.1 == chain_outcome(blocks, results).1
    }
    &&& (forall|i: int| 0 <= i < task.chain().len() ==> !calls_function(&core, #[trigger] task.chain()[i].command)) ==> {
        &&& runs_after == runs_before.push(runs_after.last())
        &&& r.0 == runs_after.last().run.exit_code
        &&& r.1 == without_final_newline(runs_after.last().run.output@)
    }
}

/// Where the result of a block of a task chain came from, with the block's index: a run of
/// the host (task blocks); a run of the function's expression (called with the arguments
/// given) from one session to another, `true` when no exit flag cut it short, with the host
/// runs made during it (function blocks); or a spent budget (function blocks, which then
/// give 255 and stop the chain).
pub enum BlockSource {
    Host(HostRun, int),
    Call(int, ShellExpression, Seq<Seq<char>>, ShellCore, ShellCore, bool, Seq<HostRun>),
    Spent(int),
}

/// The host runs among the sources of block results, and those made during function
/// calls, in order.
pub open spec fn hosts_of(sources: Seq<BlockSource>) -> Seq<HostRun>
    decreases sources.len(),
{
    if sources.len() == 0 {
        Seq::empty()
    } else {
        let rest = hosts_of(sources.drop_last());
        match sources.last() {
            BlockSource::Host(h, _) => rest.push(h),
            BlockSource::Call(_, _, _, _, _, _, made) => rest + made,
            BlockSource::Spent(_) => rest,
        }
    }
}

/// Whether a block result (exit code, output, whether the chain stops there) is what its
/// source gives, the source's block holding what `chain_task` put there: a task block the
/// exit code and output of the host's run of its tasks, stopping where the run was
/// interrupted; a function block what the function's expression ran to, when no exit flag
/// cut it short; a function block left for want of budget 255, nothing, and a stop.
pub open spec fn source_gives(core: &ShellCore, links: Seq<TaskLink>, source: BlockSource, result: (u8, Seq<char>, bool)) -> bool {
    match source {
        BlockSource::Host(h, b) => {
            &&& 0 <= b < layout_final(core, links).blocks.len()
            &&& content_matches(core, links, layout_final(core, links), b, BlockContent::Tasks(h.task.chain()))
            &&& result.0 == h.run.exit_code
            &&& result.1 == h.run.output@
            &&& h.run.interrupted ==> result.2
        },
        BlockSource::Call(b, e, args, before, after, clean, _) => {
            &&& 0 <= b < layout_final(core, links).blocks.len()
            &&& content_matches(core, links, layout_final(core, links), b, BlockContent::Call(args, e.model()))
            &&& clean ==> ran(e, before, after, result.0, result.1)
        },
        BlockSource::Spent(b) => {
            &&& 0 <= b < layout_final(core, links).blocks.len()
            &&& layout_final(core, links).rels[b] is None
            &&& result == (ABORT_EXIT_CODE, Seq::<char>::empty(), true)
        },
    }
}

/// A function block's result, from what its function's expression ran to.
proof fn lemma_call_source(
    core: &ShellCore,
    links: Seq<TaskLink>,
    bi: int,
    e: ShellExpression,
    args: Seq<Seq<char>>,
    before: ShellCore,
    after: ShellCore,
    clean: bool,
    made: Seq<HostRun>,
    result: (u8, Seq<char>, bool),
)
    requires
        0 <= bi < layout_final(core, links).blocks.len(),
        content_matches(core, links, layout_final(core, links), bi, BlockContent::Call(args, e.model())),
        clean ==> ran(e, before, after, result.0, result.1),
    ensures
        source_gives(core, links, BlockSource::Call(bi, e, args, before, after, clean, made), result),
{
}

/// Whether the results of the blocks that ran are all used, the chain stopping only where
/// a result says so.
pub open spec fn chain_ended(blocks: Seq<ChainBlock>, results: Seq<(u8, Seq<char>, bool)>) -> bool {
    let st = run_prefix(blocks, results, blocks.len());
    &&& st.used == results.len()
    &&& st.stopped ==> results.len() > 0 && results.last().2
}

/// What `exec` returns for `task` on the session `core`, the host runs being `runs_before`
/// before it and `runs_after` after it: the outcome of the chain `chain_task` cuts, for
/// block results each of which its source gives; the task blocks' runs are the host runs
/// made, in order; when `clean` (no exit flag set at the end), no function's run was cut
/// short.
pub open spec fn exec_ran(core: ShellCore, task: Task, runs_before: Seq<HostRun>, runs_after: Seq<HostRun>, clean: bool, r: (u8, Seq<char>)) -> bool {
    let links = task.chain();
    let blocks = chain_layout(&core, links);
    exists|results: Seq<(u8, Seq<char>, bool)>, sources: Seq<BlockSource>|
        #![trigger chain_ended(blocks, results), hosts_of(sources)]
    {
        &&& chain_ended(blocks, results)
        &&& r == chain_outcome(blocks, results)
        &&& sources.len() == results.len()
        &&& runs_after == runs_before + hosts_of(sources)
        &&& forall|k: int| 0 <= k < results.len() ==> source_gives(&core, links, #[trigger] sources[k], results[k])
        &&& clean ==> forall|k: int| 0 <= k < sources.len() ==> (#[trigger] sources[k] matches BlockSource::Call(_, _, _, _, _, c, _) ==> c)
    }
}

/// What `exec` returns holds without the claim on function runs.
proof fn lemma_exec_ran_unclean(core: ShellCore, task: Task, runs_before: Seq<HostRun>, runs_after: Seq<HostRun>, clean: bool, r: (u8, Seq<char>))
    requires
        exec_ran(core, task, runs_before, runs_after, clean, r),
    ensures
        exec_ran(core, task, runs_before, runs_after, false, r),
{
    let blocks = chain_layout(&core, task.chain());
    let (results, sources) = choose|results: Seq<(u8, Seq<char>, bool)>, sources: Seq<BlockSource>| {
        &&& chain_ended(blocks, results)
        &&& r == chain_outcome(blocks, results)
        &&& sources.len() == results.len()
        &&& runs_after == runs_before + hosts_of(sources)
        &&& forall|k: int| 0 <= k < results.len() ==> source_gives(&core, task.chain(), #[trigger] sources[k], results[k])
        &&& clean ==> forall|k: int| 0 <= k < sources.len() ==> (#[trigger] sources[k] matches BlockSource::Call(_, _, _, _, _, c, _) ==> c)
    };
    assert(chain_ended(blocks, results));
    assert(hosts_of(sources) == hosts_of(sources));
}

/// The output of a pipeline as `exec` returns it: without its final newline.
pub fn trim_final_newline(output: String) -> (r: String)
    ensures
        r@ == without_final_newline(output@),
{
    let v = chars_of(output.as_str());
    if v.len() > 0 && v[v.len() - 1] == '\n' {
        string_from_range(&v, 0, v.len() - 1)
    } else {
        output
    }
}

/// Whether the next block of a task chain runs.
pub fn next_block_runs(relation: TaskRelation, rc: u8) -> (r: bool)
    ensures
        r == block_runs(relation, rc),
{
    match relation {
        TaskRelation::And => rc == 0,
        TaskRelation::Or => rc != 0,
        TaskRelation::Pipe => true,
        TaskRelation::Unrelated => true,
    }
}

/// How many bytes the UTF-8 encoding of `c` takes.
pub open spec fn utf8_len(c: char) -> nat {
    if (c as u32) < 0x80 {
        1
    } else if (c as u32) < 0x800 {
        2
    } else if (c as u32) < 0x10000 {
        3
    } else {
        4
    }
}

/// How many characters from the start of `input` fit, encoded in UTF-8, in `room` bytes.
pub open spec fn fitting_chars(input: Seq<char>, room: nat) -> nat
    decreases input.len(),
{
    if input.len() == 0 || utf8_len(input[0]) > room {
        0
    } else {
        1 + fitting_chars(input.drop_first(), (room - utf8_len(input[0])) as nat)
    }
}

/// What `read` keeps of an input: at most `max` bytes of it, cut before the first character
/// that would not fit whole (all of it without a maximum).
pub open spec fn read_value_spec(input: Seq<char>, max_size: Option<usize>) -> Seq<char> {
    match max_size {
        Some(m) => input.take(fitting_chars(input, m as nat) as int),
        None => input,
    }
}

/// How many bytes the UTF-8 encoding of `c` takes.
fn utf8_width(c: char) -> (n: usize)
    ensures
        n == utf8_len(c),
{
    let v = c as u32;
    if v < 0x80 {
        1
    } else if v < 0x800 {
        2
    } else if v < 0x10000 {
        3
    } else {
        4
    }
}

/// The value `read` stores for an input.
pub fn read_value(input: &String, max_size: Option<usize>) -> (r: String)
    ensures
        r@ == read_value_spec(input@, max_size),
{
    match max_size {
        Some(m) => {
            let v = chars_of(input.as_str());
            let mut i: usize = 0;
            let mut room: usize = m;
            assert(input@.skip(0) =~= input@);
            while i < v.len()
                invariant
                    i <= v@.len(),
                    v@ == input@,
                    fitting_chars(input@, m as nat) == i + fitting_chars(input@.skip(i as int), room as nat),
                ensures
                    fitting_chars(input@, m as nat) == i,
                    i <= v@.len(),
                decreases v@.len() - i,
            {
                let n = utf8_width(v[i]);
                assert(input@.skip(i as int)[0] == v@[i as int]);
                if n > room {
                    break;
                }
                assert(input@.skip(i as int).drop_first() =~= input@.skip(i + 1));
                room = room - n;
                i = i + 1;
            }
            string_from_range(&v, 0, i)
        },
        None => input.clone(),
    }
}

/// A copy of a list of case branches.
fn duplicate_cases(cases: &Vec<(ShellExpression, ShellExpression)>) -> (r: Vec<(ShellExpression, ShellExpression)>)
    ensures
        r@.len() == cases@.len(),
{
    let mut r: Vec<(ShellExpression, ShellExpression)> = Vec::new();
    for i in 0..cases.len()
        invariant
            r@.len() == i,
    {
        r.push((cases[i].0.duplicate(), cases[i].1.duplicate()));
    }
    r
}

/// The history entries, oldest first, each followed by a newline.
fn history_text(core: &ShellCore) -> (r: String) {
    let entries = core.history_get();
    let mut text = String::new();
    let mut k: usize = entries.len();
    while k > 0
        invariant
            k <= entries@.len(),
        decreases k,
    {
        k = k - 1;
        text.append(entries[k].as_str());
        text.append("\n");
    }
    text
}

/// A copy of an optional string.
fn copy_opt(s: &Option<String>) -> (r: Option<String>)
    ensures
        r == *s,
{
    match s {
        Some(x) => Some(x.clone()),
        None => None,
    }
}

impl ShellRunner {
    /// What a message from the user does to a running expression: input is buffered for
    /// the next task; an interrupt stops it with 255, a kill with 9, a signal with the
    /// signal's number.
    pub fn apply_user_message(&mut self, message: &UserStreamMessage)
        ensures
            final(self).steps == old(self).steps,
            final(self).host_runs == old(self).host_runs,
            final(self).heard == old(self).heard,
            match message {
                UserStreamMessage::Input(s) => final(self).exit_flag == old(self).exit_flag && match old(self).buffer {
                    Some(b) => final(self).buffer matches Some(nb) && nb@ == b@ + s@,
                    None => final(self).buffer matches Some(nb) && nb@ == s@,
                },
                UserStreamMessage::Interrupt => final(self).exit_flag == Some(ABORT_EXIT_CODE) && final(self).buffer == old(self).buffer,
                UserStreamMessage::Kill => final(self).exit_flag == Some(9u8) && final(self).buffer == old(self).buffer,
                UserStreamMessage::Signal(sig) => final(self).exit_flag == Some(sig.spec_number()) && final(self).buffer == old(self).buffer,
            },
    {
        match message {
            UserStreamMessage::Input(stdin) => {
                self.buffer = match self.buffer.take() {
                    Some(b) => {
                        let mut nb = b;
                        nb.append(stdin.as_str());
                        Some(nb)
                    },
                    None => Some(stdin.clone()),
                };
            },
            UserStreamMessage::Interrupt => {
                self.exit_flag = Some(ABORT_EXIT_CODE);
            },
            UserStreamMessage::Kill => {
                self.exit_flag = Some(9);
            },
            UserStreamMessage::Signal(sig) => {
                self.exit_flag = Some(sig.number());
            },
        }
    }

    /// Handles the user's pending messages between two statements; a hung-up user stream
    /// stops the expression with 255.
    fn poll_user(&mut self, core: &ShellCore)
        ensures
            final(self).steps == old(self).steps,
            flag_kept(old(self).exit_flag, final(self).exit_flag),
            final(self).host_runs == old(self).host_runs,
            final(self).heard@.len() >= old(self).heard@.len(),
            final(self).heard@.subrange(0, old(self).heard@.len() as int) == old(self).heard@,
            final(self).heard@.len() == old(self).heard@.len() ==> final(self).exit_flag == old(self).exit_flag,
    {
        match core.sstream.receive() {
            Ok(inbox) => {
                let ghost h0 = self.heard@;
                for i in 0..inbox.len()
                    invariant
                        self.steps == old(self).steps,
                        flag_kept(old(self).exit_flag, self.exit_flag),
                        self.host_runs == old(self).host_runs,
                        h0 == old(self).heard@,
                        self.heard@.len() == h0.len() + i,
                        self.heard@.subrange(0, h0.len() as int) == h0,
                        i == 0 ==> self.exit_flag == old(self).exit_flag,
                {
                    let ghost hb = self.heard@;
                    self.apply_user_message(&inbox[i]);
                    proof {
                        self.heard = Ghost(hb.push(Some(inbox@[i as int])));
                        assert(self.heard@.subrange(0, h0.len() as int) =~= hb.subrange(0, h0.len() as int));
                    }
                }
            },
            Err(()) => {
                self.exit_flag = Some(ABORT_EXIT_CODE);
                proof {
                    let h0 = self.heard@;
                    self.heard = Ghost(h0.push(None));
                    assert(self.heard@.subrange(0, h0.len() as int) =~= h0);
                }
            },
        }
    }

    /// ### run
    ///
    /// Runs an expression and returns its exit code.
    pub fn run(&mut self, core: &mut ShellCore, expression: ShellExpression) -> (rc: u8)
        requires
            old(core).wf(),
        ensures
            runs_kept(old(self).host_runs@, final(self).host_runs@),
            final(core).wf(),
            final(self).steps <= old(self).steps,
            flag_kept(old(self).exit_flag, final(self).exit_flag),
            expression.statements@.len() == 0 ==> rc == 0,
            old(self).exit_flag is None ==> match final(self).exit_flag {
                Some(code) => rc == code,
                None => true,
            },
            old(self).exit_flag is None && final(self).exit_flag is None ==> forall|k: int|
                0 <= k < expression.statements@.len() && #[trigger] reaches(expression.statements@, k)
                    ==> (expression.statements@[k].0 matches ShellStatement::Return(code) ==> rc == code),
                    old(self).steps > 0 ==> (quick_code(expression) matches Some(code) ==> rc == code),
            old(self).steps > 0 && quick_code(expression) is Some ==> *final(core) == *old(core),
            runs_to(expression, *old(core), *final(core), old(self).steps, rc),
            final(self).exit_flag is None ==> exists|out: Seq<char>| #[trigger] ran(expression, *old(core), *final(core), rc, out),
            expression.statements@.len() == 1 && old(self).steps > 0 ==> {
                &&& builtin_effect(expression.statements@[0].0, *old(core), *final(core))
                &&& (final(self).exit_flag is None ==> match builtin_code(expression.statements@[0].0, *old(core)) {
                    Some(code) => rc == code,
                    None => true,
                })
            },
        decreases old(self).steps, 2nat,
    {
        let (rc, _) = self.run_expression(core, expression);
        rc
    }

    /// ### run_expression
    ///
    /// Runs the statements of an expression in order and returns the exit code and the
    /// output of the expression. `Break` stops the expression, `Continue` skips to the next
    /// statement, `Return` returns its code with the output so far. After each statement
    /// the user's messages are handled; once the exit flag is set, the expression stops
    /// with the flag's code. Each statement uses one step of the budget; when it is spent
    /// the expression stops with 255. An expression of one builtin statement does to the
    /// session what that statement does (`builtin_effect`, `builtin_code`).
    pub fn run_expression(&mut self, core: &mut ShellCore, expression: ShellExpression) -> (r: (u8, String))
        requires
            old(core).wf(),
        ensures
            runs_kept(old(self).host_runs@, final(self).host_runs@),
            final(self).last_run@ == Some((expression.model(), r.0)),
            final(core).wf(),
            final(self).steps <= old(self).steps,
            flag_kept(old(self).exit_flag, final(self).exit_flag),
            expression.statements@.len() == 0 ==> r.0 == 0 && r.1@ == Seq::<char>::empty(),
            old(self).exit_flag is None ==> match final(self).exit_flag {
                Some(code) => r.0 == code,
                None => true,
            },
            old(self).exit_flag is None && final(self).exit_flag is None ==> forall|k: int|
                0 <= k < expression.statements@.len() && #[trigger] reaches(expression.statements@, k)
                    ==> (expression.statements@[k].0 matches ShellStatement::Return(code) ==> r.0 == code),
            forall|k: int|
                0 <= k < expression.statements@.len() && #[trigger] skips_to(expression.statements@, k)
                    && ends_expression(expression.statements@[k].0) && old(self).steps > k ==> {
                    &&& r.1@ == Seq::<char>::empty()
                    &&& (expression.statements@[k].0 matches ShellStatement::Return(code) ==> r.0 == code)
                    &&& (expression.statements@[k].0 is Break ==> r.0 == 0)
                    &&& *final(core) == *old(core)
                    &&& final(self).steps == old(self).steps - (k + 1)
                },
            old(self).steps > 0 ==> match quick_output(old(core), expression) {
                Some(out) => r.1@ == out && *final(core) == *old(core) && final(self).steps + 1 >= old(self).steps,
                None => true,
            },
            old(self).steps > 0 ==> match quick_code(expression) {
                Some(code) => r.0 == code && final(self).exit_flag == old(self).exit_flag,
                None => true,
            },
            expression.statements@.len() == 1 && old(self).steps > 0 ==> {
                &&& builtin_effect(expression.statements@[0].0, *old(core), *final(core))
                &&& (final(self).exit_flag is None ==> match builtin_code(expression.statements@[0].0, *old(core)) {
                    Some(code) => r.0 == code,
                    None => true,
                })
            },
            exists|cores: Seq<ShellCore>, codes: Seq<u8>, outs: Seq<Seq<char>>, logs: Seq<Seq<HostRun>>|
                #![trigger executed(expression.statements@, cores, *old(core), *final(core)), printed(expression.statements@, cores, outs, logs), steps_full(expression.statements@, cores, codes, logs, final(self).exit_flag is None)]
                {
                    &&& executed(expression.statements@, cores, *old(core), *final(core))
                    &&& printed(expression.statements@, cores, outs, logs)
                    &&& steps_full(expression.statements@, cores, codes, logs, final(self).exit_flag is None)
                    &&& logs[0] == old(self).host_runs@
                    &&& r.1@ == outs.last()
                    &&& (final(self).exit_flag is None ==> completed(expression.statements@, cores)
                        && r.0 == end_code(expression.statements@, cores, codes))
                },
            final(self).exit_flag is None ==> ran(expression, *old(core), *final(core), r.0, r.1@),
            runs_to(expression, *old(core), *final(core), old(self).steps, r.0),
            runs_printing(expression, *old(core), *final(core), r.1@),
            forall|k: int|
                0 <= k < expression.statements@.len() && #[trigger] skips_to(expression.statements@, k)
                    && expression.statements@[k].0 is Exit && old(self).steps > k ==> {
                    &&& r.1@ == Seq::<char>::empty()
                    &&& *final(core) == *old(core)
                    &&& final(self).steps == old(self).steps - (k + 1)
                    &&& final(self).exit_flag == Some(r.0)
                    &&& (old(self).exit_flag is None && final(self).heard@.len() == old(self).heard@.len())
                        ==> r.0 == expression.statements@[k].0->Exit_0
                },
        decreases old(self).steps, 1nat,
    {
        let ghost e0 = expression;
        let ghost stmts = expression.statements@;
        let ghost mut cores: Seq<ShellCore> = seq![*old(core)];
        let ghost mut codes: Seq<u8> = seq![0u8];
        let ghost mut outs: Seq<Seq<char>> = seq![Seq::<char>::empty()];
        let ghost mut logs: Seq<Seq<HostRun>> = seq![self.host_runs@];
        let mut rc: u8 = 0;
        let mut output = String::new();
        let n = expression.statements.len();
        let mut statements = expression.statements;
        let mut i: usize = 0;
        assert(statements@ =~= stmts.skip(0));
        while i < n
            invariant
                runs_kept(old(self).host_runs@, self.host_runs@),
                cores.len() == i + 1,
                executed(stmts, cores, *old(core), *core),
                printed(stmts, cores, outs, logs),
                steps_full(stmts, cores, codes, logs, true),
                codes.last() == rc,
                output@ == outs.last(),
                logs[0] == old(self).host_runs@,
                logs.last() == self.host_runs@,
                forall|j: int| 0 <= j < i ==> !(#[trigger] stmts[j].0 is Exit),
                core.wf(),
                self.steps <= old(self).steps,
                flag_kept(old(self).exit_flag, self.exit_flag),
                stmts == expression.statements@,
                e0 == expression,
                statements@ == stmts.skip(i as int),
                n == stmts.len(),
                i <= n,
                reaches(stmts, i as int),
                skips_to(stmts, i as int) ==> rc == 0 && output@ == Seq::<char>::empty() && *core == *old(core)
                    && self.steps == old(self).steps - i && self.exit_flag == old(self).exit_flag && self.heard == old(self).heard,
                n == 1 && i == 1 && old(self).steps > 0 ==> match stmts[0].0 {
                    ShellStatement::Value(v) => !has_wildcard(expanded_value(old(core), v@)) ==> output@ == expanded_value(old(core), v@)
                        && *core == *old(core) && self.steps + 1 == old(self).steps,
                    _ => true,
                },
                old(self).exit_flag is None ==> self.exit_flag is None,
                n == 1 && i == 1 && old(self).steps > 0 ==> builtin_effect(stmts[0].0, *old(core), *core)
                    && (self.exit_flag is None ==> match builtin_code(stmts[0].0, *old(core)) {
                        Some(code) => rc == code,
                        None => true,
                    }),
            decreases n - i,
        {
            if !self.tick() {
                assert(executed(stmts, cores, *old(core), *core));
                assert(steps_full(stmts, cores, codes, logs, false));
                assert(steps_full(stmts, cores, codes, logs, self.exit_flag is None));
                proof {
                    self.last_run = Ghost(Some((e0.model(), ABORT_EXIT_CODE)));
                }
                return (ABORT_EXIT_CODE, output);
            }
            let ghost before_core = *core;
            let ghost prev_out = output@;
            let ghost rc0 = rc;
            let ghost runs0 = self.host_runs@;
            let (statement, _relation) = statements.remove(0);
            proof {
                assert(statement == stmts[i as int].0);
                assert(statements@ =~= stmts.skip(i + 1));
            }
            match statement {
                ShellStatement::Alias(name, cmd) => {
                    rc = self.alias(core, name, cmd);
                },
                ShellStatement::Break => {
                    assert(executed(stmts, cores, *old(core), *core));
                    assert(completed(stmts, cores));
                    assert(steps_full(stmts, cores, codes, logs, self.exit_flag is None));
                    proof {
                        if self.exit_flag is None {
                            lemma_ran_intro(e0, cores, codes, outs, logs, *old(core), *core, rc, output@);
                        }
                    }
                    proof {
                        self.last_run = Ghost(Some((e0.model(), rc)));
                    }
                    return (rc, output);
                },
                ShellStatement::Case(what, cases) => {
                    if let Some(code) = self.case(core, what, cases) {
                        rc = code;
                    }
                },
                ShellStatement::Cd(path) => {
                    rc = self.change_directory(core, path);
                },
                ShellStatement::Continue => {
                    proof {
                        assert(reaches(stmts, i + 1)) by {
                            assert forall|j: int| 0 <= j < i + 1 implies !ends_expression(#[trigger] stmts[j].0) by {
                                if j < i {
                                    assert(reaches(stmts, i as int));
                                }
                            }
                        }
                        if skips_to(stmts, i + 1) {
                            assert(skips_to(stmts, i as int));
                        }
                        lemma_builtin_full(stmts[i as int].0, before_core, *core, rc0, rc, runs0, self.host_runs@);
                        lemma_executed_push(stmts, cores, *old(core), *core);
                        lemma_printed_push(stmts, cores, outs, logs, *core, output@, self.host_runs@);
                        lemma_steps_push(stmts, cores, codes, logs, *core, rc, self.host_runs@, true);
                        cores = cores.push(*core);
                        codes = codes.push(rc);
                        outs = outs.push(output@);
                        logs = logs.push(self.host_runs@);
                    }
                    i = i + 1;
                    continue;
                },
                ShellStatement::Dirs => {
                    rc = self.dirs(core);
                },
                ShellStatement::Exec(task) => {
                    let ghost t0 = task;
                    let (code, out) = self.exec(core, task);
                    rc = code;
                    output.append(out.as_str());
                    assert(exec_returns(before_core, t0, runs0, self.host_runs@, (code, out@)));
                },
                ShellStatement::ExecHistory(index) => {
                    rc = self.exec_history(core, index);
                },
                ShellStatement::Exit(code) => {
                    self.exit(core, code);
                },
                ShellStatement::Export(key, value) => {
                    rc = self.export(core, key, value);
                    proof {
                        if self.exit_flag is None {
                            let st = stmts[i as int].0;
                            let (mid, code, printed) = choose|mid: ShellCore, code: u8, printed: Seq<char>|
                                #[trigger] ran(st->Export_1, before_core, mid, code, printed) && exported(st->Export_0@, mid, *core, printed);
                            lemma_export_effect(st, before_core, mid, *core, rc0, rc, runs0, self.host_runs@, code, printed);
                        }
                    }
                },
                ShellStatement::For(what, when, perform) => {
                    if let Some(code) = self.foreach(core, what, when, perform) {
                        rc = code;
                    }
                },
                ShellStatement::Function(name, expr) => {
                    rc = self.function(core, name, expr);
                },
                ShellStatement::If(what, perform_if, perform_else) => {
                    let r = self.ifcond(core, what, perform_if, perform_else);
                    if let Some(code) = r {
                        rc = code;
                    }
                    proof {
                        if self.exit_flag is None {
                            lemma_if_effect(stmts[i as int].0, before_core, *core, rc0, rc, runs0, self.host_runs@, r);
                        }
                    }
                },
                ShellStatement::Let(dest, operand1, operation, operand2) => {
                    rc = self.let_perform(core, dest, operand1, operation, operand2);
                    proof {
                        if self.exit_flag is None {
                            let st = stmts[i as int].0;
                            let (mid1, mid2, r1, p1, r2, p2) = choose|mid1: ShellCore, mid2: ShellCore, r1: u8, p1: Seq<char>, r2: u8, p2: Seq<char>|
                                #![trigger ran(st->Let_1, before_core, mid1, r1, p1), ran(st->Let_3, mid1, mid2, r2, p2)]
                                ran(st->Let_1, before_core, mid1, r1, p1) && ran(st->Let_3, mid1, mid2, r2, p2)
                                && let_done(st->Let_0@, p1, st->Let_2, p2, mid2, *core, rc);
                            lemma_let_effect(st, before_core, mid1, mid2, *core, rc0, rc, runs0, self.host_runs@, r1, p1, r2, p2);
                        }
                    }
                },
                ShellStatement::PopdBack => {
                    rc = self.popd_back(core);
                },
                ShellStatement::PopdFront => {
                    rc = self.popd_front(core);
                },
                ShellStatement::Pushd(dir) => {
                    rc = self.pushd(core, dir);
                },
                ShellStatement::Read(prompt, length, result_key) => {
                    rc = self.read(core, prompt, length, result_key);
                },
                ShellStatement::Return(ret) => {
                    assert(executed(stmts, cores, *old(core), *core));
                    assert(completed(stmts, cores));
                    assert(steps_full(stmts, cores, codes, logs, self.exit_flag is None));
                    proof {
                        if self.exit_flag is None {
                            assert(end_code(stmts, cores, codes) == ret);
                            lemma_ran_intro(e0, cores, codes, outs, logs, *old(core), *core, ret, output@);
                        }
                    }
                    proof {
                        self.last_run = Ghost(Some((e0.model(), ret)));
                    }
                    return (ret, output);
                },
                ShellStatement::SetValue(key, value) => {
                    rc = self.set(core, key, value);
                    proof {
                        if self.exit_flag is None {
                            let st = stmts[i as int].0;
                            let (mid, code, printed) = choose|mid: ShellCore, code: u8, printed: Seq<char>|
                                #[trigger] ran(st->SetValue_1, before_core, mid, code, printed) && stored(st->SetValue_0@, mid, *core, printed);
                            lemma_set_effect(st, before_core, mid, *core, rc0, rc, runs0, self.host_runs@, code, printed);
                        }
                    }
                },
                ShellStatement::Source(file) => {
                    rc = self.source(core, file);
                },
                ShellStatement::Time(task) => {
                    let ghost t0 = task;
                    let ghost steps0 = self.steps;
                    let (code, out) = self.exec_time(core, task);
                    rc = code;
                    output.append(out.as_str());
                    proof {
                        if steps0 > 0 {
                            assert(exec_returns(before_core, t0, runs0, self.host_runs@, (code, out@)));
                        } else {
                            assert(output@ =~= prev_out);
                        }
                    }
                },
                ShellStatement::Unalias(alias) => {
                    rc = self.unalias(core, alias);
                },
                ShellStatement::History(options) => {
                    rc = self.history(core, options);
                },
                ShellStatement::Output(out, err) => {
                    self.report(core, ShellStreamMessage::Output((out, err)));
                    rc = 0;
                },
                ShellStatement::Value(val) => {
                    output = self.eval_value(core, val);
                    assert(builtin_effect(stmts[i as int].0, before_core, *core));
                },
                ShellStatement::While(until, perform) => {
                    rc = self.while_loop(core, until, perform);
                },
            }
            let ghost flag_mid = self.exit_flag;
            self.poll_user(core);
            proof {
                assert(!ends_expression(stmts[i as int].0));
                assert(builtin_effect(stmts[i as int].0, before_core, *core));
                if self.exit_flag is None {
                    let st = stmts[i as int].0;
                    match st {
                        ShellStatement::SetValue(_, _) | ShellStatement::Export(_, _) | ShellStatement::Let(_, _, _, _)
                            | ShellStatement::If(_, _, _) => {},
                        ShellStatement::Read(_, _, _) | ShellStatement::Cd(_) | ShellStatement::Exec(_) | ShellStatement::Time(_) => {
                            lemma_direct_full(st, before_core, *core, rc0, rc, runs0, self.host_runs@);
                        },
                        _ => {
                            lemma_builtin_full(st, before_core, *core, rc0, rc, runs0, self.host_runs@);
                        },
                    }
                    assert(full_effect(st, before_core, *core, rc0, rc, runs0, self.host_runs@));
                }
                assert(output_step(stmts[i as int].0, cores.last(), outs.last(), output@, logs.last(), self.host_runs@));
                lemma_executed_push(stmts, cores, *old(core), *core);
                lemma_printed_push(stmts, cores, outs, logs, *core, output@, self.host_runs@);
                lemma_steps_push(stmts, cores, codes, logs, *core, rc, self.host_runs@, self.exit_flag is None);
                cores = cores.push(*core);
                codes = codes.push(rc);
                outs = outs.push(output@);
                logs = logs.push(self.host_runs@);
                assert(executed(stmts, cores, *old(core), *core));
            }
            if let Some(code) = self.exit_flag {
                assert(steps_full(stmts, cores, codes, logs, self.exit_flag is None));
                proof {
                    self.last_run = Ghost(Some((e0.model(), code)));
                }
                return (code, output);
            }
            proof {
                let st = stmts[i as int].0;
                assert(!ends_expression(st));
                assert(reaches(stmts, i + 1)) by {
                    assert forall|j: int| 0 <= j < i + 1 implies !ends_expression(#[trigger] stmts[j].0) by {
                        if j < i {
                            assert(reaches(stmts, i as int));
                        }
                    }
                }
                assert(!(st is Continue));
                assert(!skips_to(stmts, i + 1));
            }
            i = i + 1;
        }
        assert(executed(stmts, cores, *old(core), *core));
        assert(completed(stmts, cores));
        assert(steps_full(stmts, cores, codes, logs, self.exit_flag is None));
        proof {
            lemma_ran_intro(e0, cores, codes, outs, logs, *old(core), *core, rc, output@);
            self.last_run = Ghost(Some((e0.model(), rc)));
        }
        (rc, output)
    }

    /// ### case
    ///
    /// Runs the first branch whose case prints what `what` prints (or `\*`), and returns
    /// its exit code; `None` when no branch matched.
    pub fn case(&mut self, core: &mut ShellCore, what: ShellExpression, cases: Vec<(ShellExpression, ShellExpression)>) -> (r: Option<u8>)
        requires
            old(core).wf(),
        ensures
            runs_kept(old(self).host_runs@, final(self).host_runs@),
            final(core).wf(),
            final(self).steps <= old(self).steps,
            flag_kept(old(self).exit_flag, final(self).exit_flag),
            cases@.len() == 0 ==> r is None,
            r matches Some(a) ==> exists|cs: Seq<ShellCore>, outs: Seq<Seq<char>>| {
                &&& #[trigger] cases_tried(what, cases@, cs, outs)
                &&& cs[0] == *old(core)
                &&& outs.len() >= 2
                &&& case_matches(outs.last(), outs[0])
                &&& runs_to_model(cases@[outs.len() - 2].1, cs.last(), *final(core), a)
            },
            r is None ==> final(self).exit_flag == Some(ABORT_EXIT_CODE) || exists|cs: Seq<ShellCore>, outs: Seq<Seq<char>>| {
                &&& #[trigger] cases_tried(what, cases@, cs, outs)
                &&& cs[0] == *old(core)
                &&& outs.len() == cases@.len() + 1
                &&& (outs.len() >= 2 ==> !case_matches(outs.last(), outs[0]))
                &&& cs.last() == *final(core)
            },
            old(self).steps >= 6 && cases@.len() >= 1 ==> match (quick_output(old(core), what), quick_output(old(core), cases@[0].0)) {
                (Some(printed), Some(pattern)) => if pattern == printed || pattern == "\\*"@ {
                    quick_code(cases@[0].1) matches Some(b) ==> r == Some(b)
                } else {
                    cases@.len() == 1 ==> r is None
                },
                _ => true,
            },
        decreases old(self).steps, 0nat,
    {
        let ghost w = what;
        let ghost orig = cases@;
        let ghost quick = old(self).steps >= 6 && cases@.len() >= 1 && quick_output(old(core), what) is Some
            && quick_output(old(core), cases@[0].0) is Some;
        let ghost core0 = *old(core);
        if !self.tick() {
            return None;
        }
        let ghost c0 = *core;
        let (_, output) = self.run_expression(core, what);
        let ghost mut cs: Seq<ShellCore> = seq![c0, *core];
        let ghost mut outs: Seq<Seq<char>> = seq![output@];
        let n = cases.len();
        for i in 0..n
            invariant
                runs_kept(old(self).host_runs@, self.host_runs@),
                orig == cases@,
                w == what,
                cases_tried(w, orig, cs, outs),
                cs[0] == *old(core),
                outs.len() == i + 1,
                outs[0] == output@,
                cs.last() == *core,
                i >= 1 ==> !case_matches(outs.last(), outs[0]),
                core.wf(),
                self.steps <= old(self).steps,
                flag_kept(old(self).exit_flag, self.exit_flag),
                n == orig.len(),
                core0 == *old(core),
                quick == (old(self).steps >= 6 && orig.len() >= 1 && quick_output(old(core), w) is Some
                    && quick_output(old(core), orig[0].0) is Some),
                quick ==> quick_output(&core0, w) == Some(output@),
                quick && i == 0 ==> *core == core0 && self.steps + 2 >= old(self).steps,
                quick && i > 0 ==> match (quick_output(&core0, w), quick_output(&core0, orig[0].0)) {
                    (Some(printed), Some(pattern)) => !(pattern == printed || pattern == "\\*"@),
                    _ => true,
                },
        {
            if !self.tick() {
                return None;
            }
            let pattern_expression = cases[i].0.duplicate();
            proof {
                if i == 0 {
                    lemma_quick_by_model(&core0, orig[0].0, pattern_expression);
                }
            }
            let ghost cb = *core;
            let ghost pe = pattern_expression;
            let (_, case_match) = self.run_expression(core, pattern_expression);
            proof {
                reveal_strlit("\\*");
                let cs0 = cs;
                let outs0 = outs;
                cs = cs.push(*core);
                outs = outs.push(case_match@);
                assert(pe.model() == orig[i as int].0.model());
                assert forall|j: int| 0 <= j < outs.len() - 1 implies #[trigger] runs_printing_model(orig[j].0, cs[j + 1], cs[j + 2], outs[j + 1]) by {
                    if j < outs0.len() - 1 {
                        assert(cs[j + 1] == cs0[j + 1] && cs[j + 2] == cs0[j + 2] && outs[j + 1] == outs0[j + 1]);
                    } else {
                        assert(cs[j + 1] == cb);
                    }
                }
                assert forall|j: int| 1 <= j < outs.len() - 1 implies !case_matches(#[trigger] outs[j], outs[0]) by {
                    if j < outs0.len() - 1 {
                        assert(outs[j] == outs0[j]);
                    } else {
                        assert(outs[j] == outs0.last());
                    }
                }
                assert(runs_printing(w, cs[0], cs[1], outs[0]));
                assert(cases_tried(w, orig, cs, outs));
            }
            if crate::text::str_is(case_match.as_str(), output.as_str()) || crate::text::str_is(case_match.as_str(), "\\*") {
                if !self.tick() {
                    return None;
                }
                let branch = cases[i].1.duplicate();
                proof {
                    lemma_quick_by_model(&core0, orig[i as int].1, branch);
                }
                let ghost cbr = *core;
                let ghost be = branch;
                let ghost s_branch = self.steps;
                let (rc, _) = self.run_expression(core, branch);
                proof {
                    assert(be.model() == orig[outs.len() - 2].1.model());
                    assert(cs.last() == cbr);
                    assert(runs_to(be, cbr, *core, s_branch, rc));
                    assert(runs_to_model(orig[outs.len() - 2].1, cs.last(), *core, rc));
                    assert(case_matches(outs.last(), outs[0]));
                }
                return Some(rc);
            }
        }
        None
    }

    /// Runs a task chain's task block through the host.
    fn exec_block(&mut self, core: &mut ShellCore, task: Task, output: &mut String) -> (rc: u8)
        requires
            old(core).wf(),
        ensures
            final(core).wf(),
            final(self).steps == old(self).steps,
            flag_kept(old(self).exit_flag, final(self).exit_flag),
            *final(core) == *old(core),
            final(self).buffer is None,
            final(self).exit_flag == old(self).exit_flag || final(self).exit_flag == Some(rc),
            exists|added: Seq<char>| final(output)@ == old(output)@ + added,
            final(self).host_runs@ == old(self).host_runs@.push(final(self).host_runs@.last()),
            final(self).host_runs@.last().task == task,
            final(self).host_runs@.last().input == old(self).buffer,
            rc == final(self).host_runs@.last().run.exit_code,
            final(output)@ == old(output)@ + final(self).host_runs@.last().run.output@,
            final(self).exit_flag == (if final(self).host_runs@.last().run.interrupted {
                Some(rc)
            } else {
                old(self).exit_flag
            }),
    {
        let input = self.buffer.take();
        let ghost handed_task = task;
        let ghost handed_input = input;
        let run = core.host.run_task(task, input, &core.sstream);
        proof {
            self.host_runs = Ghost(self.host_runs@.push(HostRun { task: handed_task, input: handed_input, run: run }));
        }
        self.task_block_result(run, output)
    }

    /// What a task block gives once the host ran it: its exit code; its output is added
    /// to `output`; an interrupted run sets the exit flag to its exit code.
    pub fn task_block_result(&mut self, run: TaskRun, output: &mut String) -> (rc: u8)
        ensures
            rc == run.exit_code,
            final(output)@ == old(output)@ + run.output@,
            final(self).exit_flag == (if run.interrupted { Some(run.exit_code) } else { old(self).exit_flag }),
            final(self).steps == old(self).steps,
            final(self).buffer == old(self).buffer,
            final(self).break_loop == old(self).break_loop,
            final(self).sent == old(self).sent,
            final(self).host_runs == old(self).host_runs,
    {
        output.append(run.output.as_str());
        if run.interrupted {
            self.exit_flag = Some(run.exit_code);
        }
        run.exit_code
    }

    /// Runs a task chain's function block: its arguments are stored as `0`, `1`, ... for
    /// the time of the call; afterwards those names are removed, and the values that were
    /// set under them before the call are stored again under `0`, `1`, ... in order.
    fn exec_function(&mut self, core: &mut ShellCore, expression: ShellExpression, args: Vec<String>, redirection: Redirection, pipe_next: bool, output: &mut String) -> (r: (u8, bool))
        requires
            old(core).wf(),
        ensures
            runs_kept(old(self).host_runs@, final(self).host_runs@),
            final(core).wf(),
            final(self).steps <= old(self).steps,
            flag_kept(old(self).exit_flag, final(self).exit_flag),
            old(self).steps == 0 ==> r == (ABORT_EXIT_CODE, true) && *final(output) == *old(output),
            pipe_next ==> r.1,
            !r.1 ==> redirection is File,
            pipe_next && old(self).steps > 0 ==> (final(self).buffer matches Some(b)
                && final(output)@ == old(output)@ + b@),
            final(output)@.len() >= old(output)@.len(),
            final(output)@ == old(output)@ + final(output)@.skip(old(output)@.len() as int),
            final(self).exit_flag is None ==> exists|b: ShellCore, a: ShellCore, added: Seq<char>, c: u8|
                #[trigger] ran(expression, b, a, c, added) && c == r.0 && final(output)@ == old(output)@ + added,
        decreases old(self).steps, 0nat,
    {
        let ghost fe = expression;
        let nargs = args.len();
        let mut saved: Vec<String> = Vec::new();
        for index in 0..nargs
            invariant
                core.wf(),
                nargs == args@.len(),
        {
            let key = crate::text::u128_to_string(index as u128);
            if let Some(val) = core.value_get(&key) {
                saved.push(val);
            }
            core.storage_arg_set(key, args[index].clone());
        }
        if !self.tick() {
            assert(output@ =~= old(output)@ + Seq::<char>::empty());
            assert(output@.skip(old(output)@.len() as int) =~= Seq::<char>::empty());
            return (ABORT_EXIT_CODE, true);
        }
        let ghost run_before = *core;
        let (exitcode, out) = self.run_expression(core, expression);
        let ghost run_after = *core;
        for index in 0..nargs
            invariant
                core.wf(),
        {
            let key = crate::text::u128_to_string(index as u128);
            core.value_unset(&key);
        }
        for index in 0..saved.len()
            invariant
                core.wf(),
        {
            let key = crate::text::u128_to_string(index as u128);
            core.storage_arg_set(key, saved[index].clone());
        }
        let ghost before = output@;
        let ghost added = out@;
        output.append(out.as_str());
        assert(output@ == before + out@);
        assert(before == old(output)@);
        assert(output@ == old(output)@ + added);
        assert(output@.skip(old(output)@.len() as int) =~= added);
        proof {
            if self.exit_flag is None {
                assert(ran(fe, run_before, run_after, exitcode, added));
            }
        }
        if pipe_next {
            self.buffer = Some(out);
        } else {
            if let Err(err) = self.redirect_function_output(core, redirection, out) {
                if !self.send_user(core, ShellStreamMessage::Error(err)) {
                    return (exitcode, false);
                }
            }
        }
        (exitcode, true)
    }

    /// ### exec
    ///
    /// Executes a pipeline: it is cut into a task chain; task blocks run through the host,
    /// function blocks run here. A block after `&&` runs only when the last exit code is 0,
    /// after `||` only when it is not. Returns the last exit code and the output, without
    /// its final newline. A pipeline that calls no function leaves the session as it was.
    pub fn exec(&mut self, core: &mut ShellCore, task: Task) -> (r: (u8, String))
        requires
            old(core).wf(),
        ensures
            runs_kept(old(self).host_runs@, final(self).host_runs@),
            final(core).wf(),
            final(self).steps <= old(self).steps,
            flag_kept(old(self).exit_flag, final(self).exit_flag),
            (forall|i: int| 0 <= i < task.chain().len() ==> !calls_function(old(core), #[trigger] task.chain()[i].command))
                ==> *final(core) == *old(core) && final(self).steps == old(self).steps && final(self).buffer is None
                && (final(self).exit_flag == old(self).exit_flag || final(self).exit_flag == Some(r.0)),
            exec_returns(*old(core), task, old(self).host_runs@, final(self).host_runs@, (r.0, r.1@)),
            exec_ran(*old(core), task, old(self).host_runs@, final(self).host_runs@, final(self).exit_flag is None, (r.0, r.1@)),
            (forall|i: int| 0 <= i < task.chain().len() ==> !calls_function(old(core), #[trigger] task.chain()[i].command))
                ==> final(self).host_runs@.last().input == old(self).buffer,
        decreases old(self).steps, 0nat,
    {
        let ghost no_functions = forall|i: int| 0 <= i < task.chain().len() ==> !calls_function(core, #[trigger] task.chain()[i].command);
        let ghost full = chain_layout(core, task.chain());
        let ghost links = task.chain();
        let mut chain = self.chain_task(core, task);
        let ghost fcs = chain.contents();
        let ghost mut srcs: Seq<BlockSource> = Seq::empty();
        proof {
            if no_functions {
                lemma_one_block(&chain);
            }
            assert(full.skip(0) =~= full);
        }
        let mut rc: u8 = 0;
        let mut output = String::new();
        let mut satisfied = true;
        let ghost mut res: Seq<(u8, Seq<char>, bool)> = Seq::empty();
        let ghost mut bi: int = 0;
        loop
            invariant_except_break
                no_functions ==> chain.task is Some && chain.next is None && satisfied,
                0 <= bi < full.len(),
                chain.blocks() == full.skip(bi),
                run_prefix(full, res, bi as nat) == (RunState { code: rc, out: output@, used: res.len(), stopped: false }),
                satisfied == (bi == 0 || block_runs(full[bi].prev, rc)),
                no_functions && chain.task is Some ==> self.host_runs == old(self).host_runs && self.buffer == old(self).buffer
                    && output@ == Seq::<char>::empty(),
                chain.contents() == fcs.skip(bi),
            invariant
                links == task.chain(),
                fcs.len() == full.len(),
                forall|k: int| 0 <= k < full.len() ==> #[trigger] content_matches(old(core), links, layout_final(old(core), links), k, fcs[k]),
                srcs.len() == res.len(),
                forall|k: int| 0 <= k < res.len() ==> source_gives(old(core), links, #[trigger] srcs[k], res[k]),
                self.host_runs@ == old(self).host_runs@ + hosts_of(srcs),
                self.exit_flag is None ==> forall|k: int| 0 <= k < srcs.len() ==> (#[trigger] srcs[k] matches BlockSource::Call(_, _, _, _, _, c, _) ==> c),
                runs_kept(old(self).host_runs@, self.host_runs@),
                full == chain_layout(old(core), task.chain()),
                no_functions && chain.task is None ==> {
                    &&& self.host_runs@ == old(self).host_runs@.push(self.host_runs@.last())
                    &&& self.host_runs@.last().input == old(self).buffer
                    &&& rc == self.host_runs@.last().run.exit_code
                    &&& output@ == self.host_runs@.last().run.output@
                },
                core.wf(),
                self.steps <= old(self).steps,
                flag_kept(old(self).exit_flag, self.exit_flag),
                no_functions ==> *core == *old(core) && self.steps == old(self).steps,
                no_functions && chain.task is Some ==> self.exit_flag == old(self).exit_flag,
                no_functions && chain.task is None ==> self.buffer is None
                    && (self.exit_flag == old(self).exit_flag || self.exit_flag == Some(rc)),
            ensures
                runs_kept(old(self).host_runs@, self.host_runs@),
                core.wf(),
                self.steps <= old(self).steps,
                flag_kept(old(self).exit_flag, self.exit_flag),
                no_functions ==> *core == *old(core) && self.steps == old(self).steps,
                no_functions ==> self.buffer is None && (self.exit_flag == old(self).exit_flag || self.exit_flag == Some(rc)),
                run_prefix(full, res, full.len()) == (RunState { code: rc, out: output@, used: res.len(), stopped: run_prefix(full, res, full.len()).stopped }),
                run_prefix(full, res, full.len()).stopped ==> res.len() > 0 && res.last().2,
                no_functions ==> chain.task is None,
                srcs.len() == res.len(),
                forall|k: int| 0 <= k < res.len() ==> source_gives(old(core), links, #[trigger] srcs[k], res[k]),
                self.host_runs@ == old(self).host_runs@ + hosts_of(srcs),
                self.exit_flag is None ==> forall|k: int| 0 <= k < srcs.len() ==> (#[trigger] srcs[k] matches BlockSource::Call(_, _, _, _, _, c, _) ==> c),
            decreases chain.blocks().len(),
        {
            let ghost top = chain.blocks();
            let ghost top_c = chain.contents();
            let ghost content = block_content(chain.task, chain.function);
            let ghost st0 = run_prefix(full, res, bi as nat);
            let ghost srcs0 = srcs;
            proof {
                assert(content == top_c[0]);
                assert(top_c[0] == fcs[bi]);
                assert(content_matches(old(core), links, layout_final(old(core), links), bi, content));
            }
            proof {
                match &chain.next {
                    Some(n) => assert(top == seq![top[0]] + n.blocks()),
                    None => assert(top == seq![top[0]]),
                }
                assert(top[0] == full[bi]);
            }
            if satisfied {
                let next_relation = chain.next_relation;
                let ghost before = output@;
                let ghost mut entry: (u8, Seq<char>, bool) = (rc, Seq::empty(), false);
                let mut stop = false;
                if let Some(t) = chain.task.take() {
                    let ghost tt = t;
                    rc = self.exec_block(core, t, &mut output);
                    stop = self.exit_flag.is_some() && rc == self.exit_flag.unwrap();
                    proof {
                        entry = (rc, self.host_runs@.last().run.output@, stop);
                        let h = self.host_runs@.last();
                        let src = BlockSource::Host(h, bi);
                        assert(content == BlockContent::Tasks(tt.chain()));
                        assert(source_gives(old(core), links, src, entry));
                        assert(srcs.push(src).drop_last() =~= srcs);
                        assert(hosts_of(srcs.push(src)) == hosts_of(srcs).push(h));
                        assert(self.host_runs@ =~= old(self).host_runs@ + hosts_of(srcs.push(src)));
                        srcs = srcs.push(src);
                        if no_functions {
                            assert(output@ =~= self.host_runs@.last().run.output@);
                        }
                    }
                } else if let Some(func) = chain.function.take() {
                    if !self.tick() {
                        rc = ABORT_EXIT_CODE;
                        stop = true;
                        proof {
                            entry = (rc, Seq::empty(), true);
                            assert(output@ =~= before + Seq::<char>::empty());
                            let src = BlockSource::Spent(bi);
                            assert(source_gives(old(core), links, src, entry));
                            assert(srcs.push(src).drop_last() =~= srcs);
                            assert(hosts_of(srcs.push(src)) == hosts_of(srcs));
                            srcs = srcs.push(src);
                        }
                    } else {
                        let ghost fe = func.expression;
                        let ghost fargs = func.args;
                        let ghost runs_pre = self.host_runs@;
                        let (code, go_on) = self.exec_function(core, func.expression, func.args, func.redirection, next_relation == TaskRelation::Pipe, &mut output);
                        rc = code;
                        stop = !go_on;
                        proof {
                            let added = output@.skip(before.len() as int);
                            entry = (rc, added, stop);
                            let clean = self.exit_flag is None;
                            let made = self.host_runs@.skip(runs_pre.len() as int);
                            assert(self.host_runs@ =~= runs_pre + made);
                            let (b, a, added2, c) = choose|b: ShellCore, a: ShellCore, added2: Seq<char>, c: u8|
                                #[trigger] ran(fe, b, a, c, added2) && c == rc && output@ =~= before + added2;
                            if clean {
                                assert(exists|b: ShellCore, a: ShellCore, added2: Seq<char>, c: u8|
                                    #[trigger] ran(fe, b, a, c, added2) && c == rc && output@ =~= before + added2);
                                assert(ran(fe, b, a, c, added2) && c == rc && output@ =~= before + added2);
                                assert(added2 =~= added);
                                assert(ran(fe, b, a, rc, added));
                            }
                            let src = BlockSource::Call(bi, fe, command_view(fargs), b, a, clean, made);
                            assert(content == BlockContent::Call(command_view(fargs), fe.model()));
                            lemma_call_source(old(core), links, bi, fe, command_view(fargs), b, a, clean, made, entry);
                            assert(srcs.push(src).drop_last() =~= srcs);
                            assert(hosts_of(srcs.push(src)) == hosts_of(srcs) + made);
                            assert(self.host_runs@ =~= old(self).host_runs@ + hosts_of(srcs.push(src)));
                            srcs = srcs.push(src);
                        }
                    }
                } else {
                    proof {
                        assert(false);
                    }
                }
                proof {
                    assert(output@ == before + entry.1);
                    assert(entry.0 == rc && entry.2 == stop);
                    lemma_prefix_extend(full, res, entry, bi as nat);
                    let res0 = res;
                    res = res.push(entry);
                    assert(res[st0.used as int] == entry);
                    assert(srcs.len() == res.len());
                    assert forall|k: int| 0 <= k < res.len() implies source_gives(old(core), links, #[trigger] srcs[k], res[k]) by {
                        if k < res0.len() {
                            assert(srcs[k] == srcs0[k]);
                            assert(res[k] == res0[k]);
                        }
                    }
                    assert(self.exit_flag is None ==> forall|k: int| 0 <= k < srcs.len() ==> (#[trigger] srcs[k] matches BlockSource::Call(_, _, _, _, _, c, _) ==> c)) by {
                        if self.exit_flag is None {
                            assert forall|k: int| 0 <= k < srcs.len() implies (#[trigger] srcs[k] matches BlockSource::Call(_, _, _, _, _, c, _) ==> c) by {
                                if k < srcs0.len() {
                                    assert(srcs[k] == srcs0[k]);
                                }
                            }
                        }
                    }
                    assert(run_prefix(full, res, (bi + 1) as nat) == (RunState { code: rc, out: output@, used: res.len(), stopped: stop }));
                }
                if stop {
                    proof {
                        lemma_stopped_stays(full, res, (bi + 1) as nat, full.len());
                    }
                    break;
                }
            } else {
                proof {
                    assert(run_prefix(full, res, (bi + 1) as nat) == st0);
                }
            }
            match chain.next {
                Some(next) => {
                    proof {
                        assert(chain.blocks() == seq![chain.blocks()[0]] + next.blocks());
                        assert(next.blocks() == top.drop_first());
                        assert(top_c == seq![top_c[0]] + next.contents());
                        assert(next.contents() == top_c.drop_first());
                        assert(fcs.skip(bi + 1) =~= fcs.skip(bi).drop_first());
                        assert(full.skip(bi + 1) =~= full.skip(bi).drop_first());
                        bi = bi + 1;
                    }
                    chain = *next;
                    proof {
                        assert(chain.blocks()[0] == full[bi]);
                    }
                    satisfied = next_block_runs(chain.prev_relation, rc);
                },
                None => {
                    proof {
                        assert(top.len() == 1);
                        assert(bi + 1 == full.len());
                    }
                    break;
                },
            }
        }
        let ghost raw = output@;
        let output = trim_final_newline(output);
        proof {
            assert(run_prefix(full, res, full.len()).out == raw);
            assert(run_prefix(full, res, full.len()).used == res.len());
            assert(chain_outcome(full, res).0 == rc);
            assert(chain_outcome(full, res).1 == output@);
            assert(exec_returns(*old(core), task, old(self).host_runs@, self.host_runs@, (rc, output@)));
            assert(chain_ended(full, res));
            assert(hosts_of(srcs) == hosts_of(srcs));
            assert(exec_ran(*old(core), task, old(self).host_runs@, self.host_runs@, self.exit_flag is None, (rc, output@)));
        }
        (rc, output)
    }

    /// ### exec_history
    ///
    /// Runs the history entry at `index` as a new input line; 255 when there is none or the
    /// line fails.
    pub fn exec_history(&mut self, core: &mut ShellCore, index: usize) -> (rc: u8)
        requires
            old(core).wf(),
        ensures
            runs_kept(old(self).host_runs@, final(self).host_runs@),
            final(core).wf(),
            final(self).steps <= old(self).steps,
            flag_kept(old(self).exit_flag, final(self).exit_flag),
            index >= old(core).history_view().len() ==> rc == ABORT_EXIT_CODE && *final(core) == *old(core),
            index < old(core).history_view().len() && old(self).steps > 0 ==> exists|line: Result<u8, ShellError>| {
                &&& readline_outcome(*old(core), *final(core), old(core).history_view()[index as int], line)
                &&& rc == match line {
                    Ok(code) => code,
                    Err(_) => ABORT_EXIT_CODE,
                }
            },
        decreases old(self).steps, 0nat,
    {
        match core.history_at(index) {
            Some(cmd) => {
                if !self.tick() {
                    return ABORT_EXIT_CODE;
                }
                let result = core.readline_budget(cmd, self.steps);
                let ghost line = result;
                match result {
                    Ok(rc) => rc,
                    Err(err) => {
                        self.report(core, ShellStreamMessage::Error(err));
                        ABORT_EXIT_CODE
                    },
                }
            },
            None => {
                self.report(core, ShellStreamMessage::Error(ShellError::OutOfHistoryRange));
                ABORT_EXIT_CODE
            },
        }
    }

    /// ### exec_time
    ///
    /// Executes a pipeline and reports how long it took, in milliseconds.
    pub fn exec_time(&mut self, core: &mut ShellCore, task: Task) -> (r: (u8, String))
        requires
            old(core).wf(),
        ensures
            runs_kept(old(self).host_runs@, final(self).host_runs@),
            final(core).wf(),
            final(self).steps <= old(self).steps,
            flag_kept(old(self).exit_flag, final(self).exit_flag),
            old(self).steps == 0 ==> r.0 == ABORT_EXIT_CODE && r.1@ == Seq::<char>::empty() && final(self).exit_flag is Some,
            old(self).steps > 0 ==> exec_returns(*old(core), task, old(self).host_runs@, final(self).host_runs@, (r.0, r.1@)),
            old(self).steps > 0 ==> exec_ran(*old(core), task, old(self).host_runs@, final(self).host_runs@, final(self).exit_flag is None, (r.0, r.1@)),
            (forall|i: int| 0 <= i < task.chain().len() ==> !calls_function(old(core), #[trigger] task.chain()[i].command))
                ==> *final(core) == *old(core),
        decreases old(self).steps, 0nat,
    {
        let start = core.host.now_ms();
        if !self.tick() {
            return (ABORT_EXIT_CODE, String::new());
        }
        let ghost c0 = *core;
        let ghost t0 = task;
        let ghost runs0 = self.host_runs@;
        let (rc, out) = self.exec(core, task);
        let ghost runs1 = self.host_runs@;
        let ghost flag1 = self.exit_flag;
        let elapsed = core.host.now_ms().saturating_sub(start);
        self.report(core, ShellStreamMessage::Time(elapsed));
        proof {
            if self.exit_flag is None {
                assert(flag1 is None);
            } else {
                lemma_exec_ran_unclean(c0, t0, runs0, runs1, flag1 is None, (rc, out@));
            }
        }
        (rc, out)
    }

    /// ### export
    ///
    /// Exports the output of `value` as an environment variable: 0, or 1 and a `BadValue`
    /// error when `key` is not a variable name.
    pub fn export(&mut self, core: &mut ShellCore, key: String, value: ShellExpression) -> (rc: u8)
        requires
            old(core).wf(),
        ensures
            runs_kept(old(self).host_runs@, final(self).host_runs@),
            final(core).wf(),
            final(self).steps <= old(self).steps,
            flag_kept(old(self).exit_flag, final(self).exit_flag),
            old(self).steps > 0 ==> (rc == 0 <==> valid_var_name(key@)) && (rc == 0 || rc == 1),
            rc == 0 ==> final(core).environ_view().dom().contains(key@),
            old(self).steps > 0 ==> exists|mid: ShellCore, printed: Seq<char>| #[trigger] runs_printing(value, *old(core), mid, printed)
                && exported(key@, mid, *final(core), printed),
            final(self).exit_flag is None ==> rc == (if valid_var_name(key@) { 0u8 } else { 1u8 })
                && exists|mid: ShellCore, code: u8, printed: Seq<char>| #[trigger] ran(value, *old(core), mid, code, printed)
                && exported(key@, mid, *final(core), printed),
            old(self).steps >= 2 ==> match quick_output(old(core), value) {
                Some(printed) => if valid_var_name(key@) {
                    rc == 0 && final(core).environ_view() == old(core).environ_view().insert(key@, printed)
                } else {
                    rc == 1 && final(core).environ_view() == old(core).environ_view()
                },
                None => true,
            },
        decreases old(self).steps, 0nat,
    {
        if !self.tick() {
            return ABORT_EXIT_CODE;
        }
        let ghost mid = *core;
        let ghost v0 = value;
        let (code, value) = self.run_expression(core, value);
        let ghost mid2 = *core;
        let ghost printed = value@;
        let r = if core.environ_set(key.clone(), value) {
            0
        } else {
            self.report(core, ShellStreamMessage::Error(ShellError::BadValue(key)));
            1
        };
        assert(runs_printing(v0, mid, mid2, printed));
        assert(exported(key@, mid2, *core, printed));
        proof {
            if self.exit_flag is None {
                assert(ran(v0, mid, mid2, code, printed));
            }
        }
        r
    }

    /// ### foreach
    ///
    /// Runs `expression` once for each word `condition` prints, with the word stored under
    /// `key`; `key` is removed afterwards. 1 when the condition fails, `None` when it
    /// printed no word, else the exit code of the last run.
    pub fn foreach(&mut self, core: &mut ShellCore, key: String, condition: ShellExpression, expression: ShellExpression) -> (r: Option<u8>)
        requires
            old(core).wf(),
        ensures
            runs_kept(old(self).host_runs@, final(self).host_runs@),
            final(core).wf(),
            final(self).steps <= old(self).steps,
            flag_kept(old(self).exit_flag, final(self).exit_flag),
            old(self).steps > 0 ==> r == Some(1u8) || final(core).value_of(key@) is None,
            old(self).steps >= 2 ==> (quick_code(condition) matches Some(c) && c != 0 ==> r == Some(1u8)),
            old(self).steps >= 1 && condition.statements@.len() == 0 ==> r is None && final(core).value_of(key@) is None,
        decreases old(self).steps, 0nat,
    {
        if !self.tick() {
            return None;
        }
        let (rc, output) = self.run_expression(core, condition);
        if rc != 0 {
            return Some(1);
        }
        let words = crate::parsers::tokenizer::words_exec(&chars_of(output.as_str()));
        let mut exitcode: Option<u8> = None;
        proof {
            if output@.len() == 0 {
                assert(vv(words@).len() == words@.len());
            }
        }
        for i in 0..words.len()
            invariant
                runs_kept(old(self).host_runs@, self.host_runs@),
                core.wf(),
                self.steps <= old(self).steps,
                flag_kept(old(self).exit_flag, self.exit_flag),
                words@.len() == 0 ==> exitcode is None,
        {
            let word = crate::text::string_from_chars(&words[i]);
            let _ = core.storage_set(key.clone(), word);
            if !self.tick() {
                break;
            }
            let (code, _) = self.run_expression(core, expression.duplicate());
            exitcode = Some(code);
        }
        core.value_unset(&key);
        exitcode
    }

    /// ### ifcond
    ///
    /// Runs `if_perform` when `condition` exits with 0, else `else_perform` if any; returns
    /// the exit code of the branch that ran, `None` when none did.
    pub fn ifcond(&mut self, core: &mut ShellCore, condition: ShellExpression, if_perform: ShellExpression, else_perform: Option<ShellExpression>) -> (r: Option<u8>)
        requires
            old(core).wf(),
        ensures
            runs_kept(old(self).host_runs@, final(self).host_runs@),
            final(core).wf(),
            final(self).steps <= old(self).steps,
            flag_kept(old(self).exit_flag, final(self).exit_flag),
            final(self).exit_flag is None && else_perform is Some ==> r is Some,
            old(self).steps >= 4 ==> match quick_code(condition) {
                Some(c) => if c == 0 {
                    quick_code(if_perform) matches Some(a) ==> r == Some(a)
                } else {
                    match else_perform {
                        None => r is None,
                        Some(e) => quick_code(e) matches Some(b) ==> r == Some(b),
                    }
                },
                None => true,
            },
            r matches Some(a) ==> exists|c: u8, mid: ShellCore, s1: u64|
                #[trigger] runs_to(condition, *old(core), mid, s1, c) && branch_ran(c, if_perform, else_perform, mid, *final(core), a),
            r is None ==> final(self).exit_flag == Some(ABORT_EXIT_CODE) || exists|c: u8, s1: u64| {
                &&& #[trigger] runs_to(condition, *old(core), *final(core), s1, c)
                &&& c != 0
                &&& else_perform is None
            },
            final(self).exit_flag is None ==> if_ran(ShellStatement::If(condition, if_perform, else_perform), *old(core), *final(core), r),
        decreases old(self).steps, 0nat,
    {
        if !self.tick() {
            return None;
        }
        let ghost s1 = self.steps;
        let ghost cond = condition;
        let ghost st = ShellStatement::If(condition, if_perform, else_perform);
        let (rc, cond_out) = self.run_expression(core, condition);
        let ghost mid = *core;
        let ghost flag1 = self.exit_flag;
        if !self.tick() {
            return None;
        }
        let ghost s2 = self.steps;
        if rc == 0 {
            let ghost branch = if_perform;
            let (code, out) = self.run_expression(core, if_perform);
            assert(runs_to(cond, *old(core), mid, s1, rc));
            assert(runs_to(branch, mid, *core, s2, code));
            assert(branch_ran(rc, branch, else_perform, mid, *core, code));
            proof {
                if self.exit_flag is None {
                    assert(ran(cond, *old(core), mid, rc, cond_out@));
                    assert(ran(branch, mid, *core, code, out@));
                    lemma_if_ran_intro(st, *old(core), mid, *core, rc, cond_out@, Some(code), out@);
                }
            }
            Some(code)
        } else {
            match else_perform {
                Some(e) => {
                    let ghost branch = e;
                    let (code, out) = self.run_expression(core, e);
                    assert(runs_to(cond, *old(core), mid, s1, rc));
                    assert(runs_to(branch, mid, *core, s2, code));
                    assert(branch_ran(rc, if_perform, Some(branch), mid, *core, code));
                    proof {
                        if self.exit_flag is None {
                            assert(ran(cond, *old(core), mid, rc, cond_out@));
                            assert(ran(branch, mid, *core, code, out@));
                            lemma_if_ran_intro(st, *old(core), mid, *core, rc, cond_out@, Some(code), out@);
                        }
                    }
                    Some(code)
                },
                None => {
                    assert(runs_to(cond, *old(core), *core, s1, rc));
                    proof {
                        if self.exit_flag is None {
                            assert(ran(cond, *old(core), mid, rc, cond_out@));
                            lemma_if_ran_intro(st, *old(core), mid, *core, rc, cond_out@, None, cond_out@);
                        }
                    }
                    None
                },
            }
        }
    }

    /// ### let_perform
    ///
    /// Computes `operand1 operation operand2` on what the operands print (see `math`) and
    /// stores the result under `dest`: 0, or 1 when the operation fails (the error is
    /// reported) or `dest` is not a variable name.
    pub fn let_perform(&mut self, core: &mut ShellCore, dest: String, operand1: ShellExpression, operation: MathOperator, operand2: ShellExpression) -> (rc: u8)
        requires
            old(core).wf(),
        ensures
            runs_kept(old(self).host_runs@, final(self).host_runs@),
            final(core).wf(),
            final(self).steps <= old(self).steps,
            flag_kept(old(self).exit_flag, final(self).exit_flag),
            rc == 0 ==> valid_var_name(dest@) && exists|v: isize| #[trigger] final(core).storage_view()[dest@] == decimal_text(v as int)
                && final(core).storage_view().dom().contains(dest@),
            old(self).steps >= 4 ==> match (quick_output(old(core), operand1), quick_output(old(core), operand2)) {
                (Some(o1), Some(o2)) => match math_value(operand_value(o1), operation, operand_value(o2)) {
                    Ok(v) => if valid_var_name(dest@) {
                        rc == 0 && final(core).storage_view() == old(core).storage_view().insert(dest@, decimal_text(v as int))
                    } else {
                        rc == 1 && final(core).storage_view() == old(core).storage_view()
                    },
                    Err(e) => rc == 1 && final(core).storage_view() == old(core).storage_view()
                        && final(self).sent@.last() == ShellStreamMessage::Error(ShellError::Math(e)),
                },
                _ => true,
            },
            rc == 0 ==> exists|printed1: Seq<char>, printed2: Seq<char>, v: isize| {
                &&& math_value(operand_value(printed1), operation, operand_value(printed2)) == Ok::<isize, MathError>(v)
                &&& final(core).storage_view()[dest@] == decimal_text(v as int)
            },
            rc != ABORT_EXIT_CODE ==> exists|mid1: ShellCore, mid2: ShellCore, printed1: Seq<char>, printed2: Seq<char>|
                #![trigger runs_printing(operand1, *old(core), mid1, printed1), runs_printing(operand2, mid1, mid2, printed2)]
            {
                &&& runs_printing(operand1, *old(core), mid1, printed1)
                &&& runs_printing(operand2, mid1, mid2, printed2)
                &&& final(core).storage_view() == match math_value(operand_value(printed1), operation, operand_value(printed2)) {
                    Ok(v) => if valid_var_name(dest@) { mid2.storage_view().insert(dest@, decimal_text(v as int)) } else { mid2.storage_view() },
                    Err(_) => mid2.storage_view(),
                }
            },
            final(self).exit_flag is None ==> exists|mid1: ShellCore, mid2: ShellCore, r1: u8, p1: Seq<char>, r2: u8, p2: Seq<char>|
                #![trigger ran(operand1, *old(core), mid1, r1, p1), ran(operand2, mid1, mid2, r2, p2)]
                ran(operand1, *old(core), mid1, r1, p1) && ran(operand2, mid1, mid2, r2, p2)
                && let_done(dest@, p1, operation, p2, mid2, *final(core), rc),
        decreases old(self).steps, 0nat,
    {
        if !self.tick() {
            return ABORT_EXIT_CODE;
        }
        let ghost c0 = *core;
        let ghost e1 = operand1;
        let ghost e2 = operand2;
        let (code1, output1) = self.run_expression(core, operand1);
        let ghost c1 = *core;
        let ghost flag1 = self.exit_flag;
        if !self.tick() {
            return ABORT_EXIT_CODE;
        }
        let (code2, output2) = self.run_expression(core, operand2);
        let ghost c2 = *core;
        let ghost flag2 = self.exit_flag;
        let ghost d = dest@;
        let rc = self.let_store(core, dest, &output1, operation, &output2);
        assert(runs_printing(e1, c0, c1, output1@));
        assert(runs_printing(e2, c1, c2, output2@));
        proof {
            if self.exit_flag is None {
                assert(flag2 is None);
                assert(flag1 is None);
                assert(ran(e1, c0, c1, code1, output1@));
                assert(ran(e2, c1, c2, code2, output2@));
                assert(let_done(d, output1@, operation, output2@, c2, *core, rc));
            }
        }
        rc
    }

    /// What `let` does with what its operands printed: computes `output1 operation output2`
    /// (see `math`) and stores the result under `dest` as decimal text: 0; 1 when `dest` is
    /// not a variable name, or when the operation fails (the error is reported).
    pub fn let_store(&mut self, core: &mut ShellCore, dest: String, output1: &String, operation: MathOperator, output2: &String) -> (rc: u8)
        requires
            old(core).wf(),
        ensures
            final(self).host_runs == old(self).host_runs,
            final(core).wf(),
            match math_value(operand_value(output1@), operation, operand_value(output2@)) {
                Ok(v) => if valid_var_name(dest@) {
                    rc == 0 && final(core).storage_view() == old(core).storage_view().insert(dest@, decimal_text(v as int))
                } else {
                    rc == 1 && final(core).storage_view() == old(core).storage_view()
                },
                Err(_) => rc == 1 && final(core).storage_view() == old(core).storage_view(),
            },
            match math_value(operand_value(output1@), operation, operand_value(output2@)) {
                Ok(_) => final(self).sent == old(self).sent,
                Err(e) => final(self).sent@ == old(self).sent@.push(ShellStreamMessage::Error(ShellError::Math(e))),
            },
            final(core).environ_view() == old(core).environ_view(),
            reported(old(self).exit_flag, final(self).exit_flag),
            final(self).steps == old(self).steps,
    {
        match crate::math::math_compute(output1, operation, output2) {
            Ok(value) => {
                if core.storage_set(dest, crate::text::isize_to_string(value)) {
                    0
                } else {
                    1
                }
            },
            Err(e) => {
                self.report(core, ShellStreamMessage::Error(ShellError::Math(e)));
                1
            },
        }
    }

    /// ### read
    ///
    /// Shows `prompt`, then waits for the user: an input (cut to `max_size` bytes) is
    /// stored under `result_key`, or `REPLY`; a kill or a signal gives 1; an interrupt, or a
    /// hung-up user stream, gives 1 and stops the expression.
    pub fn read(&mut self, core: &mut ShellCore, prompt: Option<String>, max_size: Option<usize>, result_key: Option<String>) -> (rc: u8)
        requires
            old(core).wf(),
        ensures
            final(self).host_runs == old(self).host_runs,
            final(core).wf(),
            final(self).steps == old(self).steps,
            flag_kept(old(self).exit_flag, final(self).exit_flag),
            rc == 0 || rc == 1,
            !valid_var_name(match result_key { Some(k) => k@, None => "REPLY"@ }) ==> rc == 1,
            rc == 0 ==> exists|input: Seq<char>| final(core).storage_view() == old(core).storage_view().insert(
                (match result_key { Some(k) => k@, None => "REPLY"@ }),
                read_value_spec(input, max_size),
            ),
            rc == 1 ==> final(core).storage_view() == old(core).storage_view(),
            final(core).environ_view() == old(core).environ_view(),
            sent_one(old(self).sent@, final(self).sent@),
            final(self).sent@.last() matches ShellStreamMessage::Output((Some(shown), None)) && shown@ == prompt_text(prompt),
            read_done(read_key(result_key), max_size, *old(core), *final(core), rc),
    {
        let shown = match prompt {
            Some(p) => p,
            None => String::new(),
        };
        let _ = self.send_user(core, ShellStreamMessage::Output((Some(shown), None)));
        let key = match result_key {
            Some(k) => k,
            None => owned("REPLY"),
        };
        match core.sstream.receive_blocking() {
            Ok(inbox) => self.read_reply(core, key, max_size, Some(&inbox[0])),
            Err(()) => self.read_reply(core, key, max_size, None),
        }
    }

    /// What `read` does with the user's reply, `None` when the user stream hung up: an input,
    /// cut to `max_size` bytes, is stored under `key` (0, or 1 when `key` is not a
    /// variable name); a kill or a signal gives 1; an interrupt or a hang-up gives 1 and
    /// stops the expression with 255.
    pub fn read_reply(&mut self, core: &mut ShellCore, key: String, max_size: Option<usize>, reply: Option<&UserStreamMessage>) -> (rc: u8)
        requires
            old(core).wf(),
        ensures
            final(self).host_runs == old(self).host_runs,
            final(core).wf(),
            final(self).steps == old(self).steps,
            final(self).buffer == old(self).buffer,
            match reply {
                Some(UserStreamMessage::Input(input)) => {
                    &&& rc == (if valid_var_name(key@) { 0u8 } else { 1u8 })
                    &&& final(core).storage_view() == (if valid_var_name(key@) {
                        old(core).storage_view().insert(key@, read_value_spec(input@, max_size))
                    } else {
                        old(core).storage_view()
                    })
                    &&& final(self).exit_flag == old(self).exit_flag
                },
                Some(UserStreamMessage::Kill) | Some(UserStreamMessage::Signal(_)) => {
                    &&& rc == 1
                    &&& final(core).storage_view() == old(core).storage_view()
                    &&& final(self).exit_flag == old(self).exit_flag
                },
                Some(UserStreamMessage::Interrupt) | None => {
                    &&& rc == 1
                    &&& final(core).storage_view() == old(core).storage_view()
                    &&& final(self).exit_flag == Some(ABORT_EXIT_CODE)
                },
            },
            final(core).environ_view() == old(core).environ_view(),
            final(self).sent == old(self).sent,
    {
        match reply {
            Some(UserStreamMessage::Input(input)) => {
                if core.storage_set(key, read_value(input, max_size)) {
                    0
                } else {
                    1
                }
            },
            Some(UserStreamMessage::Kill) => 1,
            Some(UserStreamMessage::Signal(_)) => 1,
            Some(UserStreamMessage::Interrupt) => {
                self.exit_flag = Some(ABORT_EXIT_CODE);
                1
            },
            None => {
                self.exit_flag = Some(ABORT_EXIT_CODE);
                1
            },
        }
    }

    /// ### set
    ///
    /// Stores the output of `value` under `key`: 0, or 1 and a `BadValue` error when `key`
    /// is not a variable name.
    pub fn set(&mut self, core: &mut ShellCore, key: String, value: ShellExpression) -> (rc: u8)
        requires
            old(core).wf(),
        ensures
            runs_kept(old(self).host_runs@, final(self).host_runs@),
            final(core).wf(),
            final(self).steps <= old(self).steps,
            flag_kept(old(self).exit_flag, final(self).exit_flag),
            old(self).steps > 0 ==> (rc == 0 <==> valid_var_name(key@)) && (rc == 0 || rc == 1),
            rc == 0 ==> final(core).storage_view().dom().contains(key@),
            old(self).steps > 0 ==> exists|mid: ShellCore, printed: Seq<char>| #[trigger] runs_printing(value, *old(core), mid, printed)
                && stored(key@, mid, *final(core), printed),
            final(self).exit_flag is None ==> rc == (if valid_var_name(key@) { 0u8 } else { 1u8 })
                && exists|mid: ShellCore, code: u8, printed: Seq<char>| #[trigger] ran(value, *old(core), mid, code, printed)
                && stored(key@, mid, *final(core), printed),
            old(self).steps > 0 && !valid_var_name(key@) ==> final(self).sent@.last() == ShellStreamMessage::Error(ShellError::BadValue(key)),
            old(self).steps >= 2 ==> match quick_output(old(core), value) {
                Some(printed) => if valid_var_name(key@) {
                    rc == 0 && final(core).storage_view() == old(core).storage_view().insert(key@, printed)
                } else {
                    rc == 1 && final(core).storage_view() == old(core).storage_view()
                },
                None => true,
            },
        decreases old(self).steps, 0nat,
    {
        if !self.tick() {
            return ABORT_EXIT_CODE;
        }
        let ghost mid = *core;
        let ghost v0 = value;
        let (code, value) = self.run_expression(core, value);
        let ghost mid2 = *core;
        let ghost printed = value@;
        let r = if core.storage_set(key.clone(), value) {
            0
        } else {
            self.report(core, ShellStreamMessage::Error(ShellError::BadValue(key)));
            1
        };
        assert(runs_printing(v0, mid, mid2, printed));
        assert(stored(key@, mid2, *core, printed));
        proof {
            if self.exit_flag is None {
                assert(ran(v0, mid, mid2, code, printed));
            }
        }
        r
    }

    /// ### source
    ///
    /// Sources a file; an error is reported and gives 0, a sourced file gives 1.
    pub fn source(&mut self, core: &mut ShellCore, file: String) -> (rc: u8)
        requires
            old(core).wf(),
        ensures
            runs_kept(old(self).host_runs@, final(self).host_runs@),
            final(core).wf(),
            final(self).steps <= old(self).steps,
            flag_kept(old(self).exit_flag, final(self).exit_flag),
            old(self).steps > 0 ==> rc == 0 || rc == 1,
            old(self).steps > 0 && rc == 0 ==> *final(core) == *old(core) && sent_one(old(self).sent@, final(self).sent@)
                && final(self).sent@.last() is Error,
            rc == 1 ==> final(core).storage_view().dom().contains("?"@),
        decreases old(self).steps, 0nat,
    {
        if !self.tick() {
            return ABORT_EXIT_CODE;
        }
        match core.source_budget(file, self.steps) {
            Err(err) => {
                let _ = self.send_user(core, ShellStreamMessage::Error(err));
                0
            },
            Ok(_) => 1,
        }
    }

    /// ### while_loop
    ///
    /// Runs `expression` as long as `condition` exits with 0; returns the exit code of the
    /// last run (0 when it never ran). Unless an exit flag stopped it, the loop ends right
    /// after a run of the condition that gave a non-zero code: a run of the condition that
    /// gives 0 is followed by a run of the body and another run of the condition.
    pub fn while_loop(&mut self, core: &mut ShellCore, condition: ShellExpression, expression: ShellExpression) -> (rc: u8)
        requires
            old(core).wf(),
        ensures
            runs_kept(old(self).host_runs@, final(self).host_runs@),
            final(core).wf(),
            final(self).steps <= old(self).steps,
            flag_kept(old(self).exit_flag, final(self).exit_flag),
            old(self).steps == 0 ==> rc == 0,
            expression.statements@.len() == 0 ==> rc == 0,
            old(self).steps >= 2 ==> (quick_code(condition) matches Some(c) && c != 0 ==> rc == 0),
            final(self).exit_flag is None ==> (final(self).last_run@ matches Some((m, c)) && m == condition.model() && c != 0),
            loop_turns(condition.model(), expression.model(), final(self).loop_trail@),
            final(self).exit_flag is None ==> final(self).loop_trail@.len() % 2 == 1
                && final(self).loop_trail@.last().1 != 0,
            rc == loop_code(final(self).loop_trail@),
        decreases old(self).steps, 0nat,
    {
        let ghost quickfail = old(self).steps >= 2 && match quick_code(condition) {
            Some(c) => c != 0,
            None => false,
        };
        let mut exitcode: u8 = 0;
        let ghost mut trail: Seq<(ExprModel, u8)> = Seq::empty();
        loop
            invariant_except_break
                quickfail ==> self.steps == old(self).steps,
                trail.len() % 2 == 0,
            invariant
                runs_kept(old(self).host_runs@, self.host_runs@),
                loop_turns(condition.model(), expression.model(), trail),
                exitcode == loop_code(trail),
                core.wf(),
                self.steps <= old(self).steps,
                flag_kept(old(self).exit_flag, self.exit_flag),
                old(self).steps == 0 ==> exitcode == 0,
                expression.statements@.len() == 0 ==> exitcode == 0,
                quickfail ==> exitcode == 0,
                quickfail == (old(self).steps >= 2 && match quick_code(condition) {
                    Some(c) => c != 0,
                    None => false,
                }),
            ensures
                runs_kept(old(self).host_runs@, self.host_runs@),
                loop_turns(condition.model(), expression.model(), trail),
                exitcode == loop_code(trail),
                self.exit_flag is None ==> trail.len() % 2 == 1 && trail.last().1 != 0,
                self.exit_flag is None ==> (self.last_run@ matches Some((m, c)) && m == condition.model() && c != 0),
                core.wf(),
                self.steps <= old(self).steps,
                flag_kept(old(self).exit_flag, self.exit_flag),
                old(self).steps == 0 ==> exitcode == 0,
                expression.statements@.len() == 0 ==> exitcode == 0,
                quickfail ==> exitcode == 0,
            decreases self.steps,
        {
            if !self.tick() {
                break;
            }
            let test = condition.duplicate();
            proof {
                lemma_quick_by_model(core, condition, test);
            }
            let (rc, _) = self.run_expression(core, test);
            proof {
                let t0 = trail;
                trail = trail.push(self.last_run@->Some_0);
                assert forall|k: int| 0 <= k < trail.len() implies if k % 2 == 0 {
                    (#[trigger] trail[k]).0 == condition.model() && (k + 1 < trail.len() ==> trail[k].1 == 0)
                } else {
                    trail[k].0 == expression.model()
                } by {
                    if k < t0.len() {
                        assert(trail[k] == t0[k]);
                    }
                }
                assert(loop_code(trail) == loop_code(t0));
            }
            if rc != 0 {
                break;
            }
            if !self.tick() {
                break;
            }
            let body = expression.duplicate();
            proof {
                lemma_quick_by_model(core, expression, body);
            }
            let (code, _) = self.run_expression(core, body);
            exitcode = code;
            proof {
                let t0 = trail;
                trail = trail.push(self.last_run@->Some_0);
                assert forall|k: int| 0 <= k < trail.len() implies if k % 2 == 0 {
                    (#[trigger] trail[k]).0 == condition.model() && (k + 1 < trail.len() ==> trail[k].1 == 0)
                } else {
                    trail[k].0 == expression.model()
                } by {
                    if k < t0.len() {
                        assert(trail[k] == t0[k]);
                    }
                }
            }
        }
        proof {
            self.loop_trail = Ghost(trail);
        }
        exitcode
    }
}

/// Whether `trail` is what a `while` loop ran, in order: its condition and its body by
/// turns, starting with the condition, each with the exit code it gave; every run of the
/// condition that a run of the body follows gave 0.
pub open spec fn loop_turns(condition: ExprModel, body: ExprModel, trail: Seq<(ExprModel, u8)>) -> bool {
    forall|i: int| 0 <= i < trail.len() ==> if i % 2 == 0 {
        (#[trigger] trail[i]).0 == condition && (i + 1 < trail.len() ==> trail[i].1 == 0)
    } else {
        trail[i].0 == body
    }
}

/// The exit code a `while` loop gives after `trail`: that of its last run of the body, or
/// 0 when the body never ran.
pub open spec fn loop_code(trail: Seq<(ExprModel, u8)>) -> u8 {
    if trail.len() < 2 {
        0
    } else if trail.len() % 2 == 0 {
        trail[trail.len() - 1].1
    } else {
        trail[trail.len() - 2].1
    }
}

/// The first word of a command, or nothing for an empty command.
pub open spec fn first_word(command: Seq<Seq<char>>) -> Seq<char> {
    if command.len() > 0 { command[0] } else { Seq::empty() }
}

/// A command's words once its first word is resolved through the aliases: an alias's
/// command, split at whitespace, followed by the command's other words.
pub open spec fn resolved_words(aliases: Map<Seq<char>, Seq<char>>, command: Seq<Seq<char>>) -> Seq<Seq<char>> {
    if aliases.dom().contains(first_word(command)) {
        words(aliases[first_word(command)]) + (if command.len() > 1 { command.skip(1) } else { Seq::empty() })
    } else {
        command
    }
}

/// Resolving a command through an alias keeps the command's arguments: the alias's words
/// come first, then every word of the command after its first one, in order; a command
/// whose first word is no alias stays as it is.
pub proof fn law_alias_keeps_arguments(aliases: Map<Seq<char>, Seq<char>>, command: Seq<Seq<char>>)
    ensures
        command.len() >= 1 && aliases.dom().contains(command[0]) ==> {
            let ws = words(aliases[command[0]]);
            let r = resolved_words(aliases, command);
            &&& r.len() == ws.len() + command.len() - 1
            &&& forall|i: int| 0 <= i < ws.len() ==> #[trigger] r[i] == ws[i]
            &&& forall|i: int| 1 <= i < command.len() ==> r[ws.len() + i - 1] == #[trigger] command[i]
        },
        !(command.len() >= 1 && aliases.dom().contains(command[0])) && command.len() >= 1 ==> resolved_words(aliases, command) == command,
{
    if command.len() >= 1 && aliases.dom().contains(command[0]) {
        let ws = words(aliases[command[0]]);
        let r = resolved_words(aliases, command);
        let rest: Seq<Seq<char>> = if command.len() > 1 { command.skip(1) } else { Seq::empty() };
        assert(r == ws + rest);
        assert forall|i: int| 1 <= i < command.len() implies r[ws.len() + i - 1] == #[trigger] command[i] by {
            assert(rest[i - 1] == command[i]);
        }
    }
}

/// Whether a task of a chain calls a function: its first word, once resolved through the
/// aliases, names one.
pub open spec fn calls_function(core: &ShellCore, command: Seq<Seq<char>>) -> bool {
    core.functions_view().dom().contains(first_word(resolved_words(core.alias_view(), command)))
}

/// The number of tasks of a pipeline that call a function.
pub open spec fn function_calls(core: &ShellCore, tasks: Seq<TaskLink>) -> nat
    decreases tasks.len(),
{
    if tasks.len() == 0 {
        0
    } else {
        function_calls(core, tasks.drop_last()) + if calls_function(core, tasks.last().command) { 1nat } else { 0nat }
    }
}

/// The number of function blocks of a task chain.
pub open spec fn function_blocks(blocks: Seq<ChainBlock>) -> nat
    decreases blocks.len(),
{
    if blocks.len() == 0 {
        0
    } else {
        function_blocks(blocks.drop_last()) + if blocks.last().is_task { 0nat } else { 1nat }
    }
}

/// The function blocks of a chain that may not exist yet.
pub open spec fn chain_function_blocks(chain: Option<TaskChain>) -> nat {
    match chain {
        Some(c) => function_blocks(c.blocks()),
        None => 0,
    }
}

/// Appending a block to a chain adds a function block exactly when the new block is one.
proof fn lemma_function_blocks_append(before: Seq<ChainBlock>, after: Seq<ChainBlock>, relation: TaskRelation, is_task: bool)
    requires
        before.len() >= 1,
        after == before.update(before.len() - 1, ChainBlock { next: relation, ..before.last() }).push(
            ChainBlock { is_task, prev: relation, next: TaskRelation::Unrelated },
        ),
    ensures
        function_blocks(after) == function_blocks(before) + if is_task { 0nat } else { 1nat },
{
    let updated = before.update(before.len() - 1, ChainBlock { next: relation, ..before.last() });
    assert(after.drop_last() =~= updated);
    assert(updated.drop_last() =~= before.drop_last());
    assert(updated.last().is_task == before.last().is_task);
    assert(function_blocks(updated) == function_blocks(before));
}

/// A chain of one block has a function block exactly when that block is one.
proof fn lemma_function_blocks_single(block: ChainBlock)
    ensures
        function_blocks(seq![block]) == if block.is_task { 0nat } else { 1nat },
{
    let one = seq![block];
    assert(one.drop_last() =~= Seq::<ChainBlock>::empty());
    assert(one.last() == block);
    assert(function_blocks(Seq::<ChainBlock>::empty()) == 0);
    assert(function_blocks(one) == function_blocks(one.drop_last()) + if block.is_task { 0nat } else { 1nat });
}

/// Counting the function calls of one more task.
proof fn lemma_function_calls_step(core: &ShellCore, tasks: Seq<TaskLink>, k: int)
    requires
        0 <= k < tasks.len(),
    ensures
        function_calls(core, tasks.take(k + 1)) == function_calls(core, tasks.take(k))
            + if calls_function(core, tasks[k].command) { 1nat } else { 0nat },
{
    assert(tasks.take(k + 1).drop_last() =~= tasks.take(k));
}

/// A command's words with its first word resolved through the aliases.
fn resolve_alias(core: &ShellCore, command: &Vec<String>) -> (argv: Vec<String>)
    requires
        core.wf(),
    ensures
        command_view(argv) == resolved_words(core.alias_view(), command_view(*command)),
        command@.len() >= 1 && core.alias_view().dom().contains(command@[0]@) ==> {
            let ws = words(core.alias_view()[command@[0]@]);
            &&& argv@.len() == ws.len() + command@.len() - 1
            &&& forall|i: int| 1 <= i < command@.len() ==> argv@[ws.len() + i - 1]@ == (#[trigger] command@[i])@
        },
{
    proof {
        law_alias_keeps_arguments(core.alias_view(), command_view(*command));
    }
    let ghost cv = command_view(*command);
    let first: String = if command.len() > 0 { command[0].clone() } else { String::new() };
    assert(first@ == first_word(cv));
    let mut argv: Vec<String> = Vec::new();
    match core.alias_get(&first) {
        Some(resolved) => {
            let ws = words_exec(&chars_of(resolved.as_str()));
            let ghost wv = vv(ws@);
            for i in 0..ws.len()
                invariant
                    wv == vv(ws@),
                    command_view(argv) == wv.take(i as int),
            {
                let ghost a0 = command_view(argv);
                argv.push(crate::text::string_from_chars(&ws[i]));
                assert(command_view(argv) =~= a0.push(wv[i as int]));
                assert(wv.take(i + 1) =~= wv.take(i as int).push(wv[i as int]));
            }
            assert(wv.take(ws@.len() as int) =~= wv);
            let ghost base = command_view(argv);
            if command.len() > 1 {
                for i in 1..command.len()
                    invariant
                        cv == command_view(*command),
                        cv.len() > 1,
                        command_view(argv) == base + cv.subrange(1, i as int),
                {
                    let ghost a0 = command_view(argv);
                    argv.push(command[i].clone());
                    assert(command_view(argv) =~= a0.push(cv[i as int]));
                    assert(cv.subrange(1, i + 1) =~= cv.subrange(1, i as int).push(cv[i as int]));
                }
                assert(cv.subrange(1, cv.len() as int) =~= cv.skip(1));
            } else {
                assert(command_view(argv) =~= base + Seq::<Seq<char>>::empty());
            }
        },
        None => {
            for i in 0..command.len()
                invariant
                    cv == command_view(*command),
                    command_view(argv) == cv.take(i as int),
            {
                let ghost a0 = command_view(argv);
                argv.push(command[i].clone());
                assert(command_view(argv) =~= a0.push(cv[i as int]));
                assert(cv.take(i + 1) =~= cv.take(i as int).push(cv[i as int]));
            }
            assert(cv.take(command@.len() as int) =~= cv);
        },
    }
    proof {
        let cv = command_view(*command);
        let av = command_view(argv);
        if command@.len() >= 1 && core.alias_view().dom().contains(command@[0]@) {
            assert(cv[0] == command@[0]@);
            let ws = words(core.alias_view()[command@[0]@]);
            assert(av.len() == argv@.len());
            assert forall|i: int| 1 <= i < command@.len() implies argv@[ws.len() + i - 1]@ == (#[trigger] command@[i])@ by {
                assert(av[ws.len() + i - 1] == argv@[ws.len() + i - 1]@);
                assert(cv[i] == command@[i]@);
            }
        }
    }
    argv
}

/// The relations of the tasks of a pipeline, in order.
pub open spec fn relations_of(links: Seq<TaskLink>) -> Seq<TaskRelation> {
    Seq::new(links.len(), |i: int| links[i].relation)
}

/// The blocks of a chain with one more block: the last block is followed with `relation`
/// by the new one; the first block follows nothing.
pub open spec fn append_block(blocks: Seq<ChainBlock>, is_task: bool, relation: TaskRelation) -> Seq<ChainBlock> {
    if blocks.len() == 0 {
        seq![ChainBlock { is_task, prev: TaskRelation::Unrelated, next: TaskRelation::Unrelated }]
    } else {
        blocks.update(blocks.len() - 1, ChainBlock { next: relation, ..blocks.last() }).push(
            ChainBlock { is_task, prev: relation, next: TaskRelation::Unrelated },
        )
    }
}

/// The relation at which a task block that starts at task `start` is cut, `len` counting
/// the tasks seen since the block started (see `Task::truncate`).
pub open spec fn cut_relation(links: Seq<TaskLink>, start: nat, len: nat) -> TaskRelation {
    let block = links.skip(start as int);
    let keep = if len - 1 < block.len() { len - 1 } else { block.len() as int };
    block[keep - 1].relation
}

/// Where `chain_task` stands in a pipeline: the blocks made so far, with the relations of
/// the tasks of each task block (`None` for a function call) and the task each block
/// starts at; the start of the task block being gathered, the tasks counted since it
/// started, the relation that links the next block, and whether the last task called a
/// function.
pub struct LayoutState {
    pub blocks: Seq<ChainBlock>,
    pub rels: Seq<Option<Seq<TaskRelation>>>,
    pub origin: Seq<int>,
    pub pending: Option<nat>,
    pub count: nat,
    pub last: TaskRelation,
    pub after_function: bool,
}

/// The relations of the tasks of a task block that starts at task `start` once it is cut
/// (see `Task::truncate`): the last one kept ends the block.
pub open spec fn cut_relations(links: Seq<TaskLink>, start: nat, len: nat) -> Seq<TaskRelation> {
    let block = links.skip(start as int);
    let keep = if len - 1 < block.len() { len - 1 } else { block.len() as int };
    relations_of(block.take(keep)).update(keep - 1, TaskRelation::Unrelated)
}

/// One task of a pipeline through `chain_task`: a function call closes the task block
/// being gathered (cut where the count says) and becomes a block of its own; another task
/// starts a task block, unless one is being gathered and the last task called no function.
pub open spec fn layout_step(core: &ShellCore, links: Seq<TaskLink>, st: LayoutState, i: int) -> LayoutState {
    let count = if st.count < usize::MAX { st.count + 1 } else { st.count };
    if calls_function(core, links[i].command) {
        let cut = match st.pending {
            Some(start) => cut_relation(links, start, count),
            None => st.last,
        };
        let blocks = match st.pending {
            Some(_) => append_block(st.blocks, true, cut),
            None => st.blocks,
        };
        let rels = match st.pending {
            Some(start) => st.rels.push(Some(cut_relations(links, start, count))),
            None => st.rels,
        };
        let origin = match st.pending {
            Some(start) => st.origin.push(start as int),
            None => st.origin,
        };
        LayoutState {
            blocks: append_block(blocks, false, cut),
            rels: rels.push(None),
            origin: origin.push(i),
            pending: None,
            count: if st.pending is Some { 0 } else { count },
            last: links[i].relation,
            after_function: true,
        }
    } else if st.after_function || st.pending is None {
        LayoutState { pending: Some(i as nat), count, after_function: false, ..st }
    } else {
        LayoutState { count, ..st }
    }
}

/// Where `chain_task` stands after the first `k` tasks of a pipeline.
pub open spec fn layout_prefix(core: &ShellCore, links: Seq<TaskLink>, k: nat) -> LayoutState
    decreases k,
{
    if k == 0 {
        LayoutState {
            blocks: Seq::empty(),
            rels: Seq::empty(),
            origin: Seq::empty(),
            pending: None,
            count: 0,
            last: TaskRelation::Unrelated,
            after_function: false,
        }
    } else {
        layout_step(core, links, layout_prefix(core, links, (k - 1) as nat), k - 1)
    }
}

/// Where `chain_task` ends on a pipeline: the task block still being gathered, if any, is
/// the last block.
pub open spec fn layout_final(core: &ShellCore, links: Seq<TaskLink>) -> LayoutState {
    let st = layout_prefix(core, links, links.len());
    match st.pending {
        Some(start) => LayoutState {
            blocks: append_block(st.blocks, true, st.last),
            rels: st.rels.push(Some(relations_of(links.skip(start as int)))),
            origin: st.origin.push(start as int),
            ..st
        },
        None => st,
    }
}

/// What `words` evaluate to: the first word as it is, each other word with its variable
/// expanded when it holds no wildcard (a wildcard gives the paths it matches).
pub open spec fn evaluates_to(core: &ShellCore, words: Seq<Seq<char>>, result: Seq<Seq<char>>) -> bool {
    &&& result.len() == words.len()
    &&& words.len() > 0 ==> result[0] == words[0]
    &&& forall|i: int| 1 <= i < words.len() ==> !has_wildcard(expanded_value(core, #[trigger] words[i]))
        ==> result[i] == expanded_value(core, words[i])
}

/// Whether block `k` of a chain holds what `chain_task` puts there: a task block the tasks
/// with the relations of the layout, its first task's words resolved through the aliases
/// and evaluated, the later tasks' words as the pipeline gave them; a function call the
/// words of its task resolved through the aliases and evaluated, with the expression of the
/// function its first word names.
pub open spec fn content_matches(core: &ShellCore, links: Seq<TaskLink>, st: LayoutState, k: int, content: BlockContent) -> bool {
    match st.rels[k] {
        Some(rs) => content matches BlockContent::Tasks(ls) && relations_of(ls) == rs && ls.len() >= 1
            && evaluates_to(core, resolved_words(core.alias_view(), links[st.origin[k]].command), ls[0].command)
            && forall|i: int| 1 <= i < ls.len() ==> (#[trigger] ls[i]).command == links[st.origin[k] + i].command,
        None => content matches BlockContent::Call(args, m)
            && evaluates_to(core, resolved_words(core.alias_view(), links[st.origin[k]].command), args)
            && m == core.functions_view()[first_word(resolved_words(core.alias_view(), links[st.origin[k]].command))].model(),
    }
}

/// The blocks `chain_task` cuts a pipeline into: those made over all its tasks, then the
/// task block still being gathered.
pub open spec fn chain_layout(core: &ShellCore, links: Seq<TaskLink>) -> Seq<ChainBlock> {
    layout_final(core, links).blocks
}

/// One more block: the blocks before it keep what they held.
proof fn lemma_contents_push(
    core: &ShellCore,
    links: Seq<TaskLink>,
    st: LayoutState,
    rels: Seq<Option<Seq<TaskRelation>>>,
    origin: Seq<int>,
    cs: Seq<BlockContent>,
    c: BlockContent,
    st2: LayoutState,
)
    requires
        st.rels == rels,
        st.origin == origin,
        rels.len() == cs.len(),
        origin.len() == cs.len(),
        forall|k: int| 0 <= k < cs.len() ==> #[trigger] content_matches(core, links, st, k, cs[k]),
        st2.rels.len() == rels.len() + 1,
        st2.origin.len() == origin.len() + 1,
        st2.rels.take(rels.len() as int) == rels,
        st2.origin.take(origin.len() as int) == origin,
        content_matches(core, links, st2, cs.len() as int, c),
    ensures
        forall|k: int| 0 <= k < cs.len() + 1 ==> #[trigger] content_matches(core, links, st2, k, cs.push(c)[k]),
{
    assert forall|k: int| 0 <= k < cs.len() + 1 implies #[trigger] content_matches(core, links, st2, k, cs.push(c)[k]) by {
        if k < cs.len() {
            assert(st2.rels[k] == st2.rels.take(rels.len() as int)[k]);
            assert(st2.origin[k] == st2.origin.take(origin.len() as int)[k]);
            assert(content_matches(core, links, st, k, cs[k]));
        }
    }
}

/// The relations of a pipeline whose last relation is replaced.
proof fn lemma_relations_last(links: Seq<TaskLink>, relation: TaskRelation)
    requires
        links.len() >= 1,
    ensures
        relations_of(crate::tasks::task::with_last_relation(links, relation)) == relations_of(links).update(links.len() - 1, relation),
{
    assert(relations_of(crate::tasks::task::with_last_relation(links, relation)) =~= relations_of(links).update(links.len() - 1, relation));
}

impl ShellRunner {
    /// ### chain_task
    ///
    /// Cuts a pipeline into a task chain. Each task's first word is resolved through the
    /// aliases (an alias's command is split at whitespace and the task's other words
    /// follow), and its other words are evaluated (`eval_value`). A task whose first word
    /// names a function becomes a function block; the tasks between function calls stay
    /// together in task blocks, cut with `Task::truncate` where a function follows them.
    /// A pipeline that calls no function is one task block.
    #[verifier::rlimit(60)]
    #[verifier::spinoff_prover]
    pub fn chain_task(&self, core: &ShellCore, head: Task) -> (r: TaskChain)
        requires
            core.wf(),
        ensures
            r.blocks().len() >= 1,
            r.blocks() == chain_layout(core, head.chain()),
            r.contents().len() == r.blocks().len(),
            forall|k: int| 0 <= k < r.blocks().len()
                ==> #[trigger] content_matches(core, head.chain(), layout_final(core, head.chain()), k, r.contents()[k]),
            function_blocks(r.blocks()) == function_calls(core, head.chain()),
            (forall|i: int| 0 <= i < head.chain().len() ==> !calls_function(core, #[trigger] head.chain()[i].command))
                ==> r.blocks() == seq![ChainBlock { is_task: true, prev: TaskRelation::Unrelated, next: TaskRelation::Unrelated }],
    {
        let ghost orig = head.chain();
        let ghost no_functions = forall|i: int| 0 <= i < orig.len() ==> !calls_function(core, #[trigger] orig[i].command);
        let ghost mut consumed: int = 0;
        proof { crate::tasks::task::lemma_chain_len(&head); }
        let mut head = head;
        let mut chain: Option<TaskChain> = None;
        let mut previous_was_function = false;
        let mut last_relation = TaskRelation::Unrelated;
        let mut last_chain_block: Option<Task> = None;
        let mut chain_block_length: usize = 0;
        let ghost mut st: LayoutState = layout_prefix(core, orig, 0);
        assert(orig.skip(0) =~= orig);
        assert(orig.take(0) =~= Seq::<TaskLink>::empty());
        loop
            invariant_except_break
                head.chain() == orig.skip(consumed),
                st == layout_prefix(core, orig, consumed as nat),
                no_functions ==> chain is None && !previous_was_function && (consumed > 0 ==> last_chain_block is Some),
                chain_function_blocks(chain) == function_calls(core, orig.take(consumed)),
                consumed > 0 ==> chain is Some || last_chain_block is Some,
            invariant
                core.wf(),
                last_chain_block is Some ==> chain_block_length >= 1,
                chain matches Some(c) ==> c.blocks().len() >= 1,
                0 <= consumed < orig.len(),
                match chain {
                    Some(c) => c.blocks() == st.blocks,
                    None => st.blocks.len() == 0,
                },
                match last_chain_block {
                    Some(cb) => st.pending matches Some(start) && start < orig.len()
                        && relations_of(cb.chain()) == relations_of(orig.skip(start as int))
                        && evaluates_to(core, resolved_words(core.alias_view(), orig[start as int].command), cb.chain()[0].command)
                        && forall|i: int| 1 <= i < cb.chain().len() ==> (#[trigger] cb.chain()[i]).command == orig[start + i].command,
                    None => st.pending is None,
                },
                chain_block_length == st.count,
                last_relation == st.last,
                previous_was_function == st.after_function,
                no_functions == (forall|i: int| 0 <= i < orig.len() ==> !calls_function(core, #[trigger] orig[i].command)),
                st.rels.len() == st.blocks.len(),
                st.origin.len() == st.blocks.len(),
                chain matches Some(c) ==> c.contents().len() == st.blocks.len()
                    && forall|k: int| 0 <= k < st.blocks.len() ==> #[trigger] content_matches(core, orig, st, k, c.contents()[k]),
            ensures
                core.wf(),
                last_chain_block is Some ==> chain_block_length >= 1,
                chain matches Some(c) ==> c.blocks().len() >= 1,
                no_functions ==> chain is None && last_chain_block is Some,
                chain_function_blocks(chain) == function_calls(core, orig),
                chain is Some || last_chain_block is Some,
                st == layout_prefix(core, orig, orig.len()),
                st.rels.len() == st.blocks.len(),
                st.origin.len() == st.blocks.len(),
                chain matches Some(c) ==> c.contents().len() == st.blocks.len()
                    && forall|k: int| 0 <= k < st.blocks.len() ==> #[trigger] content_matches(core, orig, st, k, c.contents()[k]),
                match last_chain_block {
                    Some(cb) => st.pending matches Some(start) && start < orig.len()
                        && relations_of(cb.chain()) == relations_of(orig.skip(start as int))
                        && evaluates_to(core, resolved_words(core.alias_view(), orig[start as int].command), cb.chain()[0].command)
                        && forall|i: int| 1 <= i < cb.chain().len() ==> (#[trigger] cb.chain()[i]).command == orig[start + i].command,
                    None => st.pending is None,
                },
                match chain {
                    Some(c) => c.blocks() == st.blocks,
                    None => st.blocks.len() == 0,
                },
                last_relation == st.last,
            decreases head.chain().len(),
        {
            proof { crate::tasks::task::lemma_chain_len(&head); }
            let ghost last_task = head.next is None;
            proof {
                if last_task {
                    assert(orig.skip(consumed).len() == 1);
                    assert(orig.take(consumed + 1) =~= orig);
                }
            }
            if chain_block_length < usize::MAX {
                chain_block_length = chain_block_length + 1;
            }
            let argv = resolve_alias(core, &head.command);
            let command: String = if argv.len() > 0 { argv[0].clone() } else { String::new() };
            proof {
                assert(head.chain()[0] == head.link());
                assert(orig[consumed] == head.chain()[0]);
                assert(command@ == first_word(resolved_words(core.alias_view(), orig[consumed].command)));
                lemma_function_calls_step(core, orig, consumed);
            }
            let mut evaluated: Vec<String> = Vec::new();
            for i in 0..argv.len()
                invariant
                    core.wf(),
                    evaluated@.len() == i,
                    i > 0 ==> evaluated@[0]@ == argv@[0]@,
                    forall|m: int| 1 <= m < i ==> !has_wildcard(expanded_value(core, #[trigger] argv@[m]@))
                        ==> evaluated@[m]@ == expanded_value(core, argv@[m]@),
            {
                if i == 0 {
                    evaluated.push(argv[0].clone());
                } else {
                    evaluated.push(self.eval_value(core, argv[i].clone()));
                }
            }
            proof {
                let cv = command_view(argv);
                let ev = command_view(evaluated);
                assert forall|m: int| 1 <= m < cv.len() implies !has_wildcard(expanded_value(core, #[trigger] cv[m]))
                    ==> ev[m] == expanded_value(core, cv[m]) by {
                    assert(cv[m] == argv@[m]@);
                }
                assert(evaluates_to(core, resolved_words(core.alias_view(), orig[consumed].command), ev));
            }
            let ghost rest = head.chain().drop_first();
            let ghost hc0 = head.chain();
            head.command = evaluated;
            proof {
                match &head.next {
                    Some(n) => {
                        assert(head.chain() == seq![head.link()].add(n.chain()));
                        assert(hc0 == seq![hc0[0]].add(n.chain()));
                    },
                    None => {
                        assert(head.chain() == seq![head.link()]);
                    },
                }
                assert(relations_of(head.chain()) =~= relations_of(hc0));
            }
            let ghost st0 = st;
            proof {
                st = layout_step(core, orig, st0, consumed);
                assert(st == layout_prefix(core, orig, (consumed + 1) as nat));
            }
            match core.function_get(&command) {
                Some(func) => {
                    proof {
                        assert(calls_function(core, orig[consumed].command));
                        assert(!no_functions);
                    }
                    let ghost count0 = chain_function_blocks(chain);
                    let ghost cs0 = if chain is Some { chain->0.contents() } else { Seq::<BlockContent>::empty() };
                    let ghost count1: nat = if st0.count < usize::MAX { (st0.count + 1) as nat } else { st0.count };
                    let ghost st_mid = match st0.pending {
                        Some(start) => LayoutState {
                            rels: st0.rels.push(Some(cut_relations(orig, start, count1))),
                            origin: st0.origin.push(start as int),
                            ..st0
                        },
                        None => st0,
                    };
                    if let Some(mut chain_block) = last_chain_block.take() {
                        let ghost cbc = chain_block.chain();
                        last_relation = chain_block.truncate(chain_block_length);
                        proof {
                            let start = st0.pending->0;
                            let block = orig.skip(start as int);
                            assert(relations_of(cbc).len() == relations_of(block).len());
                            let keep = if chain_block_length - 1 < block.len() { chain_block_length - 1 } else { block.len() as int };
                            assert(relations_of(cbc)[keep - 1] == relations_of(block)[keep - 1]);
                            assert(last_relation == cut_relation(orig, start, chain_block_length as nat));
                        }
                        proof {
                            let start = st0.pending->0;
                            let block = orig.skip(start as int);
                            let keep = if chain_block_length - 1 < block.len() { chain_block_length - 1 } else { block.len() as int };
                            lemma_relations_last(cbc.take(keep), TaskRelation::Unrelated);
                            assert(relations_of(cbc.take(keep)) =~= relations_of(block.take(keep))) by {
                                assert forall|m: int| 0 <= m < keep implies relations_of(cbc.take(keep))[m] == relations_of(block.take(keep))[m] by {
                                    assert(relations_of(cbc)[m] == relations_of(block)[m]);
                                }
                            }
                            assert(relations_of(chain_block.chain()) == cut_relations(orig, start, chain_block_length as nat));
                        }
                        let ghost cb_content = block_content(Some(chain_block), None);
                        proof {
                            assert(st_mid.rels.take(st0.rels.len() as int) =~= st0.rels);
                            assert(st_mid.origin.take(st0.origin.len() as int) =~= st0.origin);
                            assert(content_matches(core, orig, st_mid, cs0.len() as int, cb_content));
                            lemma_contents_push(core, orig, st0, st0.rels, st0.origin, cs0, cb_content, st_mid);
                        }
                        chain_block_length = 0;
                        match chain {
                            None => {
                                let c = TaskChain::new(Some(chain_block), None, TaskRelation::Unrelated);
                                proof {
                                    lemma_function_blocks_single(c.blocks()[0]);
                                    assert(c.blocks() == append_block(st0.blocks, true, last_relation));
                                    assert(c.contents() == Seq::<BlockContent>::empty().push(cb_content));
                                }
                                chain = Some(c);
                            },
                            Some(mut c) => {
                                let ghost b0 = c.blocks();
                                c.chain(Some(chain_block), None, last_relation);
                                proof {
                                    lemma_function_blocks_append(b0, c.blocks(), last_relation, true);
                                    assert(c.blocks() == append_block(st0.blocks, true, last_relation));
                                }
                                chain = Some(c);
                            },
                        }
                    }
                    let ghost mid_blocks = if chain is Some { chain->0.blocks() } else { Seq::<ChainBlock>::empty() };
                    proof {
                        let cut = match st0.pending {
                            Some(start) => cut_relation(orig, start, if st0.count < usize::MAX { st0.count + 1 } else { st0.count }),
                            None => st0.last,
                        };
                        assert(last_relation == cut);
                        assert(mid_blocks == match st0.pending {
                            Some(_) => append_block(st0.blocks, true, cut),
                            None => st0.blocks,
                        });
                    }
                    assert(chain_function_blocks(chain) == count0);
                    let ghost cs1 = if chain is Some { chain->0.contents() } else { Seq::<BlockContent>::empty() };
                    proof {
                        assert(cs1.len() == st_mid.rels.len() && cs1.len() == st_mid.origin.len());
                        assert(forall|k: int| 0 <= k < cs1.len() ==> #[trigger] content_matches(core, orig, st_mid, k, cs1[k]));
                    }
                    previous_was_function = true;
                    let function = Function::new(func, copy_words(&head.command), head.stdout_redirection.clone());
                    let ghost fn_content = block_content(None, Some(function));
                    proof {
                        assert(command_view(function.args) =~= command_view(head.command));
                        assert(st.rels == st_mid.rels.push(None));
                        assert(st.origin == st_mid.origin.push(consumed));
                        assert(st.rels.take(st_mid.rels.len() as int) =~= st_mid.rels);
                        assert(st.origin.take(st_mid.origin.len() as int) =~= st_mid.origin);
                        assert(content_matches(core, orig, st, cs1.len() as int, fn_content));
                        lemma_contents_push(core, orig, st_mid, st_mid.rels, st_mid.origin, cs1, fn_content, st);
                    }
                    match chain {
                        None => {
                            let c = TaskChain::new(None, Some(function), TaskRelation::Unrelated);
                            proof {
                                lemma_function_blocks_single(c.blocks()[0]);
                                assert(c.blocks() == append_block(mid_blocks, false, last_relation));
                                assert(c.contents() =~= cs1.push(fn_content));
                            }
                            chain = Some(c);
                        },
                        Some(mut c) => {
                            let ghost b0 = c.blocks();
                            c.chain(None, Some(function), last_relation);
                            proof {
                                lemma_function_blocks_append(b0, c.blocks(), last_relation, false);
                                assert(c.blocks() == append_block(mid_blocks, false, last_relation));
                            }
                            chain = Some(c);
                        },
                    }
                    assert(chain_function_blocks(chain) == count0 + 1);
                    last_relation = head.relation;
                    match head.next {
                        Some(next) => {
                            proof {
                                assert(next.chain() == rest);
                                assert(orig.skip(consumed + 1) =~= rest);
                                consumed = consumed + 1;
                            }
                            head = *next;
                        },
                        None => {
                            break;
                        },
                    }
                },
                None => {
                    if previous_was_function || last_chain_block.is_none() {
                        previous_was_function = false;
                        last_chain_block = Some(head.duplicate());
                    }
                    proof {
                        assert(st.rels == st0.rels && st.origin == st0.origin && st.blocks == st0.blocks);
                        if chain is Some {
                            let cs = chain->0.contents();
                            assert forall|k: int| 0 <= k < st.blocks.len() implies #[trigger] content_matches(core, orig, st, k, cs[k]) by {
                                assert(content_matches(core, orig, st0, k, cs[k]));
                            }
                        }
                    }
                    match head.next {
                        Some(next) => {
                            proof {
                                assert(next.chain() == rest);
                                assert(orig.skip(consumed + 1) =~= rest);
                                consumed = consumed + 1;
                            }
                            head = *next;
                        },
                        None => {
                            break;
                        },
                    }
                },
            }
        }
        let ghost fin = layout_final(core, orig);
        if let Some(chain_block) = last_chain_block.take() {
            let ghost cs0 = if chain is Some { chain->0.contents() } else { Seq::<BlockContent>::empty() };
            let ghost cbc = block_content(Some(chain_block), None);
            proof {
                assert(fin.rels.take(st.rels.len() as int) =~= st.rels);
                assert(fin.origin.take(st.origin.len() as int) =~= st.origin);
                assert(content_matches(core, orig, fin, cs0.len() as int, cbc));
                lemma_contents_push(core, orig, st, st.rels, st.origin, cs0, cbc, fin);
            }
            match chain {
                None => {
                    let c = TaskChain::new(Some(chain_block), None, TaskRelation::Unrelated);
                    proof {
                        lemma_function_blocks_single(c.blocks()[0]);
                        assert(c.contents() =~= cs0.push(cbc));
                    }
                    chain = Some(c);
                },
                Some(mut c) => {
                    let ghost b0 = c.blocks();
                    c.chain(Some(chain_block), None, last_relation);
                    proof { lemma_function_blocks_append(b0, c.blocks(), last_relation, true); }
                    chain = Some(c);
                },
            }
        } else {
            proof {
                assert(fin == st);
            }
        }
        match chain {
            Some(c) => c,
            None => TaskChain::new(None, None, TaskRelation::Unrelated),
        }
    }
}

/// A chain of one task block is one task with nothing after it.
proof fn lemma_one_block(chain: &TaskChain)
    requires
        chain.blocks() == seq![ChainBlock { is_task: true, prev: TaskRelation::Unrelated, next: TaskRelation::Unrelated }],
    ensures
        chain.task is Some,
        chain.next is None,
{
    let b = ChainBlock { is_task: chain.task is Some, prev: chain.prev_relation, next: chain.next_relation };
    match chain.next {
        Some(n) => {
            assert(n.blocks().len() >= 1);
            assert(chain.blocks().len() >= 2);
        },
        None => {
            assert(chain.blocks() == seq![b]);
            assert(chain.blocks()[0] == b);
        },
    }
}

/// A copy of a list of words.
fn copy_words(v: &Vec<String>) -> (r: Vec<String>)
    ensures
        r@ == v@,
{
    let mut r: Vec<String> = Vec::new();
    for i in 0..v.len()
        invariant
            r@ == v@.subrange(0, i as int),
    {
        r.push(v[i].clone());
        assert(r@ =~= v@.subrange(0, i + 1));
    }
    assert(r@ =~= v@);
    r
}

} // verus!

