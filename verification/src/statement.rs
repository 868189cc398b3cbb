//! # Statements
//!
//! `ShellExpression` and `ShellStatement`: what a parser produces and the runner executes.
//! Each has a mathematical model; two statements are equal (`==`) exactly when their
//! models are equal. The model of a task statement (`Exec`, `Time`) is its command line.

use crate::paths::{path_model, same_path};
use vstd::std_specs::cmp::PartialEqSpec;
use crate::tasks::{command_view, Task};
use crate::{MathOperator, Redirection, TaskRelation};
use vstd::prelude::*;

verus! {

/// ## ShellExpression
///
/// A sequence of statements, each with its relation to the next one.
pub struct ShellExpression {
    pub statements: Vec<(ShellStatement, TaskRelation)>,
}

/// ## ShellStatement
///
/// - Alias: Alias(None, None) lists all aliases; Alias(Some, None) returns one; Alias(Some, Some) sets one
/// - Break: break from the current block
/// - Case: Case(expression to match, list of (case, expression))
/// - Cd: change directory
/// - Continue: continue in the current block
/// - Dirs: list the directory stack
/// - Exec: perform a task
/// - ExecHistory: perform a command from the history
/// - Exit: exit from the expression
/// - Export: export a variable into the environment
/// - For: For(key, values, perform)
/// - Function: define a function (name, expression)
/// - History: work on the history (see `HistoryOptions`)
/// - If: If(condition, then, else)
/// - Let: Let(result, operand, operator, operand)
/// - Output: Output(stdout, stderr): text for the user
/// - PopdBack, PopdFront: pop a directory from the stack
/// - Pushd: push a directory onto the stack
/// - Read: Read(prompt, length, result key)
/// - Return: return a value
/// - SetValue: set a value in the session storage
/// - Source: source a file
/// - Time: perform a task and report its duration
/// - Unalias: remove an alias
/// - Value: a value or a variable
/// - While: While(condition, perform)
pub enum ShellStatement {
    Alias(Option<String>, Option<String>),
    Break,
    Case(ShellExpression, Vec<(ShellExpression, ShellExpression)>),
    Cd(String),
    Continue,
    Dirs,
    Exec(Task),
    ExecHistory(usize),
    Exit(u8),
    Export(String, ShellExpression),
    For(String, ShellExpression, ShellExpression),
    Function(String, ShellExpression),
    History(HistoryOptions),
    If(ShellExpression, ShellExpression, Option<ShellExpression>),
    Let(String, ShellExpression, MathOperator, ShellExpression),
    Output(Option<String>, Option<String>),
    PopdBack,
    PopdFront,
    Pushd(String),
    Read(Option<String>, Option<usize>, Option<String>),
    Return(u8),
    SetValue(String, ShellExpression),
    Source(String),
    Time(Task),
    Unalias(String),
    Value(String),
    While(ShellExpression, ShellExpression),
}

/// ## HistoryOptions
///
/// What a `history` statement does: clear the history, delete an entry, print it, read
/// entries from a file, or write it to a file (`true`: truncating the file, `false`:
/// appending to it).
pub enum HistoryOptions {
    Clear,
    Del(usize),
    Print,
    Read(String),
    Write(String, bool),
}

/// The model of the options of a `history` statement.
pub enum HistoryModel {
    Clear,
    Del(usize),
    Print,
    Read(Seq<char>),
    Write(Seq<char>, bool),
}

impl HistoryOptions {
    /// The model of these options.
    pub open spec fn model(&self) -> HistoryModel {
        match self {
            HistoryOptions::Clear => HistoryModel::Clear,
            HistoryOptions::Del(i) => HistoryModel::Del(*i),
            HistoryOptions::Print => HistoryModel::Print,
            HistoryOptions::Read(f) => HistoryModel::Read(f@),
            HistoryOptions::Write(f, t) => HistoryModel::Write(f@, *t),
        }
    }

    /// A copy of these options.
    pub fn duplicate(&self) -> (r: HistoryOptions)
        ensures
            r.model() == self.model(),
    {
        match self {
            HistoryOptions::Clear => HistoryOptions::Clear,
            HistoryOptions::Del(i) => HistoryOptions::Del(*i),
            HistoryOptions::Print => HistoryOptions::Print,
            HistoryOptions::Read(f) => HistoryOptions::Read(f.clone()),
            HistoryOptions::Write(f, t) => HistoryOptions::Write(f.clone(), *t),
        }
    }

    /// Whether both have the same model.
    pub fn equals(&self, other: &HistoryOptions) -> (r: bool)
        ensures
            r == (self.model() == other.model()),
    {
        match (self, other) {
            (HistoryOptions::Clear, HistoryOptions::Clear) => true,
            (HistoryOptions::Del(a), HistoryOptions::Del(b)) => *a == *b,
            (HistoryOptions::Print, HistoryOptions::Print) => true,
            (HistoryOptions::Read(a), HistoryOptions::Read(b)) => *a == *b,
            (HistoryOptions::Write(a, x), HistoryOptions::Write(b, y)) => *a == *b && *x == *y,
            _ => false,
        }
    }
}

/// The model of an expression.
pub struct ExprModel {
    pub statements: Seq<(StatementModel, TaskRelation)>,
}

/// The model of a statement: strings become character sequences, paths their components,
/// tasks their command line.
pub enum StatementModel {
    Alias(Option<Seq<char>>, Option<Seq<char>>),
    Break,
    Case(ExprModel, Seq<(ExprModel, ExprModel)>),
    Cd((bool, Seq<Seq<char>>)),
    Continue,
    Dirs,
    Exec(Seq<Seq<char>>),
    ExecHistory(usize),
    Exit(u8),
    Export(Seq<char>, ExprModel),
    For(Seq<char>, ExprModel, ExprModel),
    Function(Seq<char>, ExprModel),
    History(HistoryModel),
    If(ExprModel, ExprModel, Option<ExprModel>),
    Let(Seq<char>, ExprModel, MathOperator, ExprModel),
    Output(Option<Seq<char>>, Option<Seq<char>>),
    PopdBack,
    PopdFront,
    Pushd((bool, Seq<Seq<char>>)),
    Read(Option<Seq<char>>, Option<usize>, Option<Seq<char>>),
    Return(u8),
    SetValue(Seq<char>, ExprModel),
    Source((bool, Seq<Seq<char>>)),
    Time(Seq<Seq<char>>),
    Unalias(Seq<char>),
    Value(Seq<char>),
    While(ExprModel, ExprModel),
}

/// The model of an optional string.
pub open spec fn opt_str_model(o: Option<String>) -> Option<Seq<char>> {
    match o {
        Some(s) => Some(s@),
        None => None,
    }
}

impl ShellExpression {
    /// The model of this expression.
    pub open spec fn model(&self) -> ExprModel
        decreases self, 0nat,
    {
        ExprModel {
            statements: Seq::new(
                self.statements@.len(),
                |i: int|
                    if 0 <= i < self.statements@.len() {
                        (self.statements@[i].0.model(), self.statements@[i].1)
                    } else {
                        (StatementModel::Break, TaskRelation::Unrelated)
                    },
            ),
        }
    }

    /// An expression made of the given statements.
    pub fn new(statements: Vec<(ShellStatement, TaskRelation)>) -> (e: ShellExpression)
        ensures
            e.statements == statements,
    {
        ShellExpression { statements }
    }

    /// A copy of this expression.
    pub fn duplicate(&self) -> (r: Self)
        ensures
            r.model() == self.model(),
        decreases self, 0nat,
    {
        let mut v: Vec<(ShellStatement, TaskRelation)> = Vec::new();
        let n = self.statements.len();
        #[verifier::loop_isolation(false)]
        for i in 0..n
            invariant
                n == self.statements@.len(),
                v@.len() == i,
                forall|j: int|
                    0 <= j < i ==> (#[trigger] v@[j]).0.model() == self.statements@[j].0.model()
                        && v@[j].1 == self.statements@[j].1,
        {
            let s = self.statements[i].0.duplicate();
            v.push((s, self.statements[i].1));
        }
        let r = ShellExpression { statements: v };
        assert(r.model().statements =~= self.model().statements);
        r
    }

    /// Whether both expressions have the same model.
    pub fn equals(&self, other: &Self) -> (r: bool)
        ensures
            r == (self.model() == other.model()),
        decreases self, 0nat,
    {
        let n = self.statements.len();
        if n != other.statements.len() {
            assert(self.model().statements.len() != other.model().statements.len());
            return false;
        }
        #[verifier::loop_isolation(false)]
        for i in 0..n
            invariant
                n == self.statements@.len(),
                n == other.statements@.len(),
                forall|j: int| 0 <= j < i ==> self.model().statements[j] == other.model().statements[j],
        {
            if !self.statements[i].0.equals(&other.statements[i].0) || self.statements[i].1
                != other.statements[i].1 {
                assert(self.model().statements[i as int] != other.model().statements[i as int]);
                return false;
            }
        }
        assert(self.model().statements =~= other.model().statements);
        true
    }
}

impl Clone for ShellExpression {
    fn clone(&self) -> (r: Self)
        ensures
            r.model() == self.model(),
    {
        self.duplicate()
    }
}

impl PartialEq for ShellExpression {
    fn eq(&self, other: &Self) -> (r: bool) {
        self.equals(other)
    }
}

impl vstd::std_specs::cmp::PartialEqSpecImpl for ShellExpression {
    open spec fn obeys_eq_spec() -> bool {
        true
    }

    open spec fn eq_spec(&self, other: &Self) -> bool {
        self.model() == other.model()
    }
}

/// Equality of optional strings.
fn opt_string_eq(a: &Option<String>, b: &Option<String>) -> (r: bool)
    ensures
        r == (opt_str_model(*a) == opt_str_model(*b)),
{
    match (a, b) {
        (Some(x), Some(y)) => *x == *y,
        (None, None) => true,
        _ => false,
    }
}

/// Equality of command lines.
fn command_eq(a: &Vec<String>, b: &Vec<String>) -> (r: bool)
    ensures
        r == (command_view(*a) == command_view(*b)),
{
    let n = a.len();
    if n != b.len() {
        assert(command_view(*a).len() != command_view(*b).len());
        return false;
    }
    for i in 0..n
        invariant
            n == a@.len(),
            n == b@.len(),
            forall|j: int| 0 <= j < i ==> a@[j]@ == b@[j]@,
    {
        if a[i] != b[i] {
            assert(command_view(*a)[i as int] != command_view(*b)[i as int]);
            return false;
        }
    }
    assert(command_view(*a) =~= command_view(*b));
    true
}

/// A copy of a command line.
fn command_copy(a: &Vec<String>) -> (r: Vec<String>)
    ensures
        r@ == a@,
{
    let mut v: Vec<String> = Vec::new();
    for i in 0..a.len()
        invariant
            v@ == a@.subrange(0, i as int),
    {
        v.push(a[i].clone());
        assert(v@ =~= a@.subrange(0, i + 1));
    }
    assert(v@ =~= a@);
    v
}

impl Task {
    /// A copy of a task's command, redirections and relation, and of the following
    /// tasks. The copy has no process attached and no exit code.
    pub fn duplicate(&self) -> (r: Task)
        ensures
            r.chain() == self.chain(),
            r.command@ == self.command@,
            self.wf() ==> r.wf(),
            r.process is None,
            r.exit_code is None,
        decreases self,
    {
        let next = match &self.next {
            Some(n) => Some(Box::new(n.duplicate())),
            None => None,
        };
        let r = Task {
            command: command_copy(&self.command),
            stdout_redirection: self.stdout_redirection.clone(),
            stderr_redirection: self.stderr_redirection.clone(),
            process: None,
            relation: self.relation,
            next,
            exit_code: None,
            file_log: Ghost(Seq::empty()),
        };
        assert(command_view(r.command) =~= command_view(self.command));
        r
    }
}

impl ShellStatement {
    /// The model of this statement.
    pub open spec fn model(&self) -> StatementModel
        decreases self, 1nat,
    {
        match self {
            ShellStatement::Alias(a, b) => StatementModel::Alias(opt_str_model(*a), opt_str_model(*b)),
            ShellStatement::Break => StatementModel::Break,
            ShellStatement::Case(what, cases) => StatementModel::Case(
                what.model(),
                Seq::new(
                    cases@.len(),
                    |i: int|
                        if 0 <= i < cases@.len() {
                            (cases@[i].0.model(), cases@[i].1.model())
                        } else {
                            (what.model(), what.model())
                        },
                ),
            ),
            ShellStatement::Cd(p) => StatementModel::Cd(path_model(p@)),
            ShellStatement::Continue => StatementModel::Continue,
            ShellStatement::Dirs => StatementModel::Dirs,
            ShellStatement::Exec(t) => StatementModel::Exec(command_view(t.command)),
            ShellStatement::ExecHistory(i) => StatementModel::ExecHistory(*i),
            ShellStatement::Exit(c) => StatementModel::Exit(*c),
            ShellStatement::Export(k, e) => StatementModel::Export(k@, e.model()),
            ShellStatement::For(k, c, p) => StatementModel::For(k@, c.model(), p.model()),
            ShellStatement::Function(n, e) => StatementModel::Function(n@, e.model()),
            ShellStatement::If(c, t, e) => StatementModel::If(
                c.model(),
                t.model(),
                match e {
                    Some(x) => Some(x.model()),
                    None => None,
                },
            ),
            ShellStatement::Let(d, a, op, b) => StatementModel::Let(d@, a.model(), *op, b.model()),
            ShellStatement::History(h) => StatementModel::History(h.model()),
            ShellStatement::Output(o, e) => StatementModel::Output(opt_str_model(*o), opt_str_model(*e)),
            ShellStatement::PopdBack => StatementModel::PopdBack,
            ShellStatement::PopdFront => StatementModel::PopdFront,
            ShellStatement::Pushd(p) => StatementModel::Pushd(path_model(p@)),
            ShellStatement::Read(p, l, r) => StatementModel::Read(opt_str_model(*p), *l, opt_str_model(*r)),
            ShellStatement::Return(c) => StatementModel::Return(*c),
            ShellStatement::SetValue(k, e) => StatementModel::SetValue(k@, e.model()),
            ShellStatement::Source(p) => StatementModel::Source(path_model(p@)),
            ShellStatement::Time(t) => StatementModel::Time(command_view(t.command)),
            ShellStatement::Unalias(a) => StatementModel::Unalias(a@),
            ShellStatement::Value(v) => StatementModel::Value(v@),
            ShellStatement::While(c, p) => StatementModel::While(c.model(), p.model()),
        }
    }

    /// A copy of this statement; tasks are copied by definition, without their process.
    pub fn duplicate(&self) -> (r: Self)
        ensures
            r.model() == self.model(),
        decreases self, 1nat,
    {
        match self {
            ShellStatement::Alias(a, b) => ShellStatement::Alias(a.clone(), b.clone()),
            ShellStatement::Break => ShellStatement::Break,
            ShellStatement::Case(what, cases) => {
                let mut v: Vec<(ShellExpression, ShellExpression)> = Vec::new();
                let n = cases.len();
                #[verifier::loop_isolation(false)]
                for i in 0..n
                    invariant
                        n == cases@.len(),
                        v@.len() == i,
                        forall|j: int|
                            0 <= j < i ==> (#[trigger] v@[j]).0.model() == cases@[j].0.model()
                                && v@[j].1.model() == cases@[j].1.model(),
                {
                    let x = cases[i].0.duplicate();
                    let y = cases[i].1.duplicate();
                    v.push((x, y));
                }
                let r = ShellStatement::Case(what.duplicate(), v);
                assert(r.model()->Case_1 =~= self.model()->Case_1);
                r
            },
            ShellStatement::Cd(p) => ShellStatement::Cd(p.clone()),
            ShellStatement::Continue => ShellStatement::Continue,
            ShellStatement::Dirs => ShellStatement::Dirs,
            ShellStatement::Exec(t) => ShellStatement::Exec(t.duplicate()),
            ShellStatement::ExecHistory(i) => ShellStatement::ExecHistory(*i),
            ShellStatement::Exit(c) => ShellStatement::Exit(*c),
            ShellStatement::Export(k, e) => ShellStatement::Export(k.clone(), e.duplicate()),
            ShellStatement::For(k, c, p) => ShellStatement::For(k.clone(), c.duplicate(), p.duplicate()),
            ShellStatement::Function(n, e) => ShellStatement::Function(n.clone(), e.duplicate()),
            ShellStatement::If(c, t, e) => {
                let e2 = match e {
                    Some(x) => Some(x.duplicate()),
                    None => None,
                };
                ShellStatement::If(c.duplicate(), t.duplicate(), e2)
            },
            ShellStatement::Let(d, a, op, b) => ShellStatement::Let(d.clone(), a.duplicate(), *op, b.duplicate()),
            ShellStatement::History(h) => ShellStatement::History(h.duplicate()),
            ShellStatement::Output(o, e) => ShellStatement::Output(o.clone(), e.clone()),
            ShellStatement::PopdBack => ShellStatement::PopdBack,
            ShellStatement::PopdFront => ShellStatement::PopdFront,
            ShellStatement::Pushd(p) => ShellStatement::Pushd(p.clone()),
            ShellStatement::Read(p, l, r) => ShellStatement::Read(p.clone(), *l, r.clone()),
            ShellStatement::Return(c) => ShellStatement::Return(*c),
            ShellStatement::SetValue(k, e) => ShellStatement::SetValue(k.clone(), e.duplicate()),
            ShellStatement::Source(p) => ShellStatement::Source(p.clone()),
            ShellStatement::Time(t) => ShellStatement::Time(t.duplicate()),
            ShellStatement::Unalias(a) => ShellStatement::Unalias(a.clone()),
            ShellStatement::Value(v) => ShellStatement::Value(v.clone()),
            ShellStatement::While(c, p) => ShellStatement::While(c.duplicate(), p.duplicate()),
        }
    }

    /// Whether both statements have the same model: the same kind with equal arguments,
    /// tasks being compared by their command line.
    pub fn equals(&self, other: &Self) -> (r: bool)
        ensures
            r == (self.model() == other.model()),
        decreases self, 1nat,
    {
        match self {
            ShellStatement::Alias(a, b) => match other {
                ShellStatement::Alias(a2, b2) => opt_string_eq(a, a2) && opt_string_eq(b, b2),
                _ => false,
            },
            ShellStatement::Break => match other {
                ShellStatement::Break => true,
                _ => false,
            },
            ShellStatement::Case(what, cases) => match other {
                ShellStatement::Case(what2, cases2) => {
                    if !what.equals(what2) {
                        return false;
                    }
                    let n = cases.len();
                    if n != cases2.len() {
                        assert(self.model()->Case_1.len() != other.model()->Case_1.len());
                        return false;
                    }
                    #[verifier::loop_isolation(false)]
                    for i in 0..n
                        invariant
                            n == cases@.len(),
                            n == cases2@.len(),
                            forall|j: int| 0 <= j < i ==> self.model()->Case_1[j] == other.model()->Case_1[j],
                    {
                        if !cases[i].0.equals(&cases2[i].0) || !cases[i].1.equals(&cases2[i].1) {
                            assert(self.model()->Case_1[i as int] != other.model()->Case_1[i as int]);
                            return false;
                        }
                    }
                    assert(self.model()->Case_1 =~= other.model()->Case_1);
                    true
                },
                _ => false,
            },
            ShellStatement::Cd(p) => match other {
                ShellStatement::Cd(p2) => same_path(p, p2),
                _ => false,
            },
            ShellStatement::Continue => match other {
                ShellStatement::Continue => true,
                _ => false,
            },
            ShellStatement::Dirs => match other {
                ShellStatement::Dirs => true,
                _ => false,
            },
            ShellStatement::Exec(t) => match other {
                ShellStatement::Exec(t2) => command_eq(&t.command, &t2.command),
                _ => false,
            },
            ShellStatement::ExecHistory(i) => match other {
                ShellStatement::ExecHistory(i2) => *i == *i2,
                _ => false,
            },
            ShellStatement::Exit(c) => match other {
                ShellStatement::Exit(c2) => *c == *c2,
                _ => false,
            },
            ShellStatement::Export(k, e) => match other {
                ShellStatement::Export(k2, e2) => *k == *k2 && e.equals(e2),
                _ => false,
            },
            ShellStatement::For(k, c, p) => match other {
                ShellStatement::For(k2, c2, p2) => *k == *k2 && c.equals(c2) && p.equals(p2),
                _ => false,
            },
            ShellStatement::Function(n, e) => match other {
                ShellStatement::Function(n2, e2) => *n == *n2 && e.equals(e2),
                _ => false,
            },
            ShellStatement::If(c, t, e) => match other {
                ShellStatement::If(c2, t2, e2) => {
                    let e_eq = match (e, e2) {
                        (Some(x), Some(y)) => x.equals(y),
                        (None, None) => true,
                        _ => false,
                    };
                    c.equals(c2) && t.equals(t2) && e_eq
                },
                _ => false,
            },
            ShellStatement::Let(d, a, op, b) => match other {
                ShellStatement::Let(d2, a2, op2, b2) => *d == *d2 && a.equals(a2) && *op == *op2 && b.equals(b2),
                _ => false,
            },
            ShellStatement::PopdBack => match other {
                ShellStatement::PopdBack => true,
                _ => false,
            },
            ShellStatement::PopdFront => match other {
                ShellStatement::PopdFront => true,
                _ => false,
            },
            ShellStatement::Pushd(p) => match other {
                ShellStatement::Pushd(p2) => same_path(p, p2),
                _ => false,
            },
            ShellStatement::Read(p, l, r) => match other {
                ShellStatement::Read(p2, l2, r2) => {
                    let l_eq = match (l, l2) {
                        (Some(x), Some(y)) => *x == *y,
                        (None, None) => true,
                        _ => false,
                    };
                    opt_string_eq(p, p2) && l_eq && opt_string_eq(r, r2)
                },
                _ => false,
            },
            ShellStatement::Return(c) => match other {
                ShellStatement::Return(c2) => *c == *c2,
                _ => false,
            },
            ShellStatement::SetValue(k, e) => match other {
                ShellStatement::SetValue(k2, e2) => *k == *k2 && e.equals(e2),
                _ => false,
            },
            ShellStatement::Source(p) => match other {
                ShellStatement::Source(p2) => same_path(p, p2),
                _ => false,
            },
            ShellStatement::Time(t) => match other {
                ShellStatement::Time(t2) => command_eq(&t.command, &t2.command),
                _ => false,
            },
            ShellStatement::Unalias(a) => match other {
                ShellStatement::Unalias(a2) => *a == *a2,
                _ => false,
            },
            ShellStatement::Value(v) => match other {
                ShellStatement::Value(v2) => *v == *v2,
                _ => false,
            },
            ShellStatement::History(h) => match other {
                ShellStatement::History(h2) => h.equals(h2),
                _ => false,
            },
            ShellStatement::Output(o, e) => match other {
                ShellStatement::Output(o2, e2) => opt_string_eq(o, o2) && opt_string_eq(e, e2),
                _ => false,
            },
            ShellStatement::While(c, p) => match other {
                ShellStatement::While(c2, p2) => c.equals(c2) && p.equals(p2),
                _ => false,
            },
        }
    }
}

impl Clone for ShellStatement {
    fn clone(&self) -> (r: Self)
        ensures
            r.model() == self.model(),
    {
        self.duplicate()
    }
}

impl PartialEq for ShellStatement {
    fn eq(&self, other: &Self) -> (r: bool) {
        self.equals(other)
    }
}

impl vstd::std_specs::cmp::PartialEqSpecImpl for ShellStatement {
    open spec fn obeys_eq_spec() -> bool {
        true
    }

    open spec fn eq_spec(&self, other: &Self) -> bool {
        self.model() == other.model()
    }
}

impl Clone for Task {
    fn clone(&self) -> (r: Self)
        ensures
            r.chain() == self.chain(),
            r.process is None,
            r.exit_code is None,
    {
        self.duplicate()
    }
}

/// Law: statement equality is an equivalence: reflexive, symmetric and transitive.
pub proof fn law_statement_equality_is_equivalence(a: ShellStatement, b: ShellStatement, c: ShellStatement)
    ensures
        a.eq_spec(&a),
        a.eq_spec(&b) == b.eq_spec(&a),
        a.eq_spec(&b) && b.eq_spec(&c) ==> a.eq_spec(&c),
{
}

} // verus!
