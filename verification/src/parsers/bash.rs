//! # Bash
//!
//! The Bash parser: the tokenizer splits the input into arguments, then the statement
//! parsers turn the arguments of each builtin into a statement. Every statement parser
//! consumes its arguments up to the first ligature (an operator argument such as `&&`,
//! `;` or `>`), which stays for the next statement.

use super::tokenizer::{
    all_nonempty, is_ws, join_space, law_arguments_are_not_empty, law_words_read_back, plain_char, plain_word, spec_readline, sv, token_word,
    tokenize, ReadlineResult,
};
use crate::statement::StatementModel;
use crate::tasks::command_view;
use crate::text::{is_digit, owned, parse_u8, str_is, string_from_range, chars_of, unsigned_text_value};
use crate::{ParseContext, ParseStatement, ParserError, ParserErrorCode, Redirection, ShellExpression, ShellStatement, Task, TaskRelation};
use std::collections::VecDeque;
use vstd::prelude::*;

verus! {

/// ## Bash
///
/// The Bash parser engine.
pub struct Bash {}

/// Whether an argument is a ligature: `&&`, `||`, `|`, `;`, `&`, `>`, `>>`, `<` or `<<`.
pub open spec fn is_ligature_text(s: Seq<char>) -> bool {
    s == seq!['&', '&'] || s == seq!['|', '|'] || s == seq!['|'] || s == seq![';'] || s == seq!['&']
        || s == seq!['>'] || s == seq!['>', '>'] || s == seq!['<'] || s == seq!['<', '<']
}

/// The number of arguments before the first ligature.
pub open spec fn args_before_delim(argv: Seq<Seq<char>>) -> nat
    decreases argv.len(),
{
    if argv.len() == 0 || is_ligature_text(argv[0]) {
        0
    } else {
        1 + args_before_delim(argv.drop_first())
    }
}

/// There are no more arguments before the first ligature than arguments.
proof fn lemma_args_before_delim_le(argv: Seq<Seq<char>>)
    ensures
        args_before_delim(argv) <= argv.len(),
    decreases argv.len(),
{
    if argv.len() > 0 && !is_ligature_text(argv[0]) {
        lemma_args_before_delim_le(argv.drop_first());
    }
}

/// The arguments from the first ligature on.
pub open spec fn from_delim(argv: Seq<Seq<char>>) -> Seq<Seq<char>> {
    argv.skip(args_before_delim(argv) as int)
}

/// The state of the scan of an alias argument: the name once an unescaped `=` was met, the
/// characters since, and whether the previous character escapes the next one.
pub struct AliasScan {
    pub name: Option<Seq<char>>,
    pub buff: Seq<char>,
    pub escaped: bool,
}

/// The scan of the first `k` characters of an alias argument.
pub open spec fn alias_scan(arg: Seq<char>, k: nat) -> AliasScan
    decreases k,
{
    if k == 0 {
        AliasScan { name: None, buff: Seq::empty(), escaped: false }
    } else {
        let st = alias_scan(arg, (k - 1) as nat);
        let c = arg[k - 1];
        if !st.escaped && c == '=' && st.name is None {
            AliasScan { name: Some(st.buff), buff: Seq::empty(), escaped: st.escaped }
        } else {
            AliasScan { name: st.name, buff: st.buff.push(c), escaped: c == '\\' && !st.escaped }
        }
    }
}

/// The alias statement an argument list gives: `name=command` sets, `name` gets, nothing
/// (or a ligature) lists.
pub open spec fn alias_model(argv: Seq<Seq<char>>) -> StatementModel {
    if argv.len() > 0 && !is_ligature_text(argv[0]) {
        let st = alias_scan(argv[0], argv[0].len());
        match st.name {
            Some(n) => StatementModel::Alias(Some(n), Some(st.buff)),
            None => StatementModel::Alias(Some(st.buff), None),
        }
    } else {
        StatementModel::Alias(None, None)
    }
}

/// `s` without its leading whitespace.
pub open spec fn trim_front(s: Seq<char>) -> Seq<char>
    decreases s.len(),
{
    if s.len() > 0 && is_ws(s[0]) {
        trim_front(s.drop_first())
    } else {
        s
    }
}

/// `s` without its trailing whitespace.
pub open spec fn trim_back(s: Seq<char>) -> Seq<char>
    decreases s.len(),
{
    if s.len() > 0 && is_ws(s.last()) {
        trim_back(s.drop_last())
    } else {
        s
    }
}

/// `s` without leading and trailing whitespace (`str::trim`).
pub open spec fn trimmed(s: Seq<char>) -> Seq<char> {
    trim_back(trim_front(s))
}

/// The directory a `cd` argument list names, or `None` when there are too many arguments.
pub open spec fn cd_target(home: Seq<char>, prev: Seq<char>, argv: Seq<Seq<char>>) -> Option<Seq<char>> {
    if argv.len() == 0 {
        Some(home)
    } else if argv.len() > 1 && !is_ligature_text(argv[1]) {
        None
    } else if is_ligature_text(argv[0]) {
        Some(home)
    } else {
        let a = trimmed(argv[0]);
        if a == seq!['~'] {
            Some(home)
        } else if a == seq!['-'] {
            Some(prev)
        } else {
            Some(a)
        }
    }
}

/// The code an `exit` or `return` argument list gives: its first argument as a `u8`, 2 when
/// it is not one, 0 without argument.
pub open spec fn code_argument(argv: Seq<Seq<char>>) -> u8 {
    if argv.len() > 0 && !is_ligature_text(argv[0]) {
        match unsigned_text_value(argv[0]) {
            Some(v) => if v <= 255 { v as u8 } else { 2 },
            None => 2,
        }
    } else {
        0
    }
}

/// `s` without leading and trailing whitespace.
fn trim(s: &String) -> (r: String)
    ensures
        r@ == trimmed(s@),
{
    let v = chars_of(s.as_str());
    let n = v.len();
    let mut a: usize = 0;
    assert(v@.subrange(0, n as int) =~= v@);
    while a < n && super::tokenizer::is_whitespace(v[a])
        invariant
            a <= n,
            n == v@.len(),
            v@ == s@,
            trim_front(s@) == trim_front(v@.subrange(a as int, n as int)),
        decreases n - a,
    {
        assert(v@.subrange(a as int, n as int).drop_first() =~= v@.subrange(a + 1, n as int));
        a = a + 1;
    }
    assert(trim_front(s@) == v@.subrange(a as int, n as int));
    let mut b: usize = n;
    while b > a && super::tokenizer::is_whitespace(v[b - 1])
        invariant
            a <= b <= n,
            n == v@.len(),
            trimmed(s@) == trim_back(v@.subrange(a as int, b as int)),
        decreases b - a,
    {
        assert(v@.subrange(a as int, b as int).drop_last() =~= v@.subrange(a as int, b - 1));
        b = b - 1;
    }
    assert(trimmed(s@) == v@.subrange(a as int, b as int));
    string_from_range(&v, a, b)
}

/// The ligature an argument names, if any.
pub(crate) fn ligature_text(arg: &String) -> (r: bool)
    ensures
        r == is_ligature_text(arg@),
{
    proof {
        reveal_strlit("&&");
        reveal_strlit("||");
        reveal_strlit("|");
        reveal_strlit(";");
        reveal_strlit("&");
        reveal_strlit(">");
        reveal_strlit(">>");
        reveal_strlit("<");
        reveal_strlit("<<");
        assert("&&"@ =~= seq!['&', '&']);
        assert("||"@ =~= seq!['|', '|']);
        assert("|"@ =~= seq!['|']);
        assert(";"@ =~= seq![';']);
        assert("&"@ =~= seq!['&']);
        assert(">"@ =~= seq!['>']);
        assert(">>"@ =~= seq!['>', '>']);
        assert("<"@ =~= seq!['<']);
        assert("<<"@ =~= seq!['<', '<']);
    }
    let a = arg.as_str();
    str_is(a, "&&") || str_is(a, "||") || str_is(a, "|") || str_is(a, ";") || str_is(a, "&")
        || str_is(a, ">") || str_is(a, ">>") || str_is(a, "<") || str_is(a, "<<")
}

impl Bash {
    /// ### new
    ///
    /// A new Bash parser.
    pub fn new() -> (b: Bash) {
        Bash {}
    }

    /// ### readline
    ///
    /// Splits an input into arguments (see the tokenizer).
    pub fn readline(&self, input: &String) -> (r: Result<VecDeque<String>, ParserError>)
        ensures
            match spec_readline(input@) {
                ReadlineResult::Read(st) => r is Ok && sv(r->Ok_0@) == st.argv,
                ReadlineResult::Failed(e, i) => r is Err && r->Err_0.code == e,
                ReadlineResult::Aborted => r is Err && r->Err_0.code == ParserErrorCode::BadToken,
            },
            r matches Ok(argv) ==> all_nonempty(sv(argv@)),
    {
        proof { law_arguments_are_not_empty(input@); }
        tokenize(input)
    }

    /// ### is_ligature
    ///
    /// Whether an argument is a ligature.
    pub fn is_ligature(&self, arg: &String) -> (r: bool)
        ensures
            r == is_ligature_text(arg@),
    {
        ligature_text(arg)
    }

    /// ### cut_argv_to_delim
    ///
    /// Removes the arguments before the first ligature.
    pub fn cut_argv_to_delim(&self, argv: &mut VecDeque<String>)
        ensures
            sv(final(argv)@) == from_delim(sv(old(argv)@)),
    {
        let ghost a0 = sv(argv@);
        let ghost k: int = 0;
        assert(a0.skip(0) =~= a0);
        while argv.len() > 0 && !ligature_text(&argv[0])
            invariant
                0 <= k <= a0.len(),
                sv(argv@) == a0.skip(k),
                args_before_delim(a0) == k + args_before_delim(a0.skip(k)),
            decreases argv@.len(),
        {
            proof {
                assert(a0.skip(k).drop_first() =~= a0.skip(k + 1));
                assert(sv(argv@)[0] == argv@[0]@);
            }
            let _ = argv.pop_front();
            proof {
                k = k + 1;
                assert(sv(argv@) =~= a0.skip(k));
            }
        }
        proof {
            if argv@.len() > 0 {
                assert(sv(argv@)[0] == argv@[0]@);
            }
            assert(args_before_delim(a0.skip(k)) == 0);
        }
    }

    //@! Statements parsers

    /// ### parse_alias
    ///
    /// Parses the arguments of `alias`: `name=command` sets an alias (an unescaped `=`
    /// separates the two), `name` gets it, nothing lists every alias.
    pub fn parse_alias(&self, context: &ParseContext, argv: &mut VecDeque<String>) -> (r: Result<ShellStatement, ParserError>)
        ensures
            r is Ok,
            r->Ok_0.model() == alias_model(sv(old(argv)@)),
            sv(final(argv)@) == from_delim(sv(old(argv)@)),
    {
        let ghost a0 = sv(argv@);
        let mut alias_name: Option<String> = None;
        let mut alias_value: Option<String> = None;
        if argv.len() > 0 && !ligature_text(&argv[0]) {
            let arg = chars_of(argv[0].as_str());
            let ghost g = argv@[0]@;
            assert(a0[0] == g);
            let mut buff = String::new();
            let mut escaped = false;
            let n = arg.len();
            for i in 0..n
                invariant
                    n == arg@.len(),
                    arg@ == g,
                    alias_scan(g, i as nat) == (AliasScan {
                        name: match alias_name {
                            Some(s) => Some(s@),
                            None => None,
                        },
                        buff: buff@,
                        escaped: escaped,
                    }),
            {
                let c = arg[i];
                if !escaped && c == '=' && alias_name.is_none() {
                    alias_name = Some(buff);
                    buff = String::new();
                } else {
                    escaped = c == '\\' && !escaped;
                    crate::text::push_char(&mut buff, c);
                }
            }
            if alias_name.is_some() {
                alias_value = Some(buff);
            } else {
                alias_name = Some(buff);
            }
        }
        self.cut_argv_to_delim(argv);
        Ok(ShellStatement::Alias(alias_name, alias_value))
    }

    /// ### parse_cd
    ///
    /// Parses the arguments of `cd`: no argument (or a ligature) and `~` give the home
    /// directory, `-` the previous one; a second argument is one too many.
    pub fn parse_cd(&self, context: &ParseContext, argv: &mut VecDeque<String>) -> (r: Result<ShellStatement, ParserError>)
        ensures
            match cd_target(context.home_dir@, context.prev_dir@, sv(old(argv)@)) {
                Some(d) => r is Ok && r->Ok_0.model() == StatementModel::Cd(crate::paths::path_model(d)),
                None => r is Err && r->Err_0.code == ParserErrorCode::TooManyArgs
                    && r->Err_0.message@ == "bash: cd: too many arguments"@,
            },
            sv(final(argv)@) == from_delim(sv(old(argv)@)),
    {
        let ghost a0 = sv(argv@);
        let dir: String = if argv.len() == 0 {
            context.home_dir.clone()
        } else {
            assert(a0[0] == argv@[0]@);
            if argv.len() > 1 {
                assert(a0[1] == argv@[1]@);
                if !ligature_text(&argv[1]) {
                    self.cut_argv_to_delim(argv);
                    return Err(ParserError::new(ParserErrorCode::TooManyArgs, owned("bash: cd: too many arguments")));
                }
            }
            if ligature_text(&argv[0]) {
                context.home_dir.clone()
            } else {
                let first = trim(&argv[0]);
                proof {
                    reveal_strlit("~");
                    reveal_strlit("-");
                    assert("~"@ =~= seq!['~']);
                    assert("-"@ =~= seq!['-']);
                }
                if str_is(first.as_str(), "~") {
                    context.home_dir.clone()
                } else if str_is(first.as_str(), "-") {
                    context.prev_dir.clone()
                } else {
                    first
                }
            }
        };
        self.cut_argv_to_delim(argv);
        Ok(ShellStatement::Cd(dir))
    }

    /// ### parse_dirs
    ///
    /// Parses the arguments of `dirs`, which takes none.
    pub fn parse_dirs(&self, argv: &mut VecDeque<String>) -> (r: Result<ShellStatement, ParserError>)
        ensures
            (sv(old(argv)@).len() > 0 && !is_ligature_text(sv(old(argv)@)[0])) ==> (r is Err && r->Err_0.code == ParserErrorCode::TooManyArgs
                && r->Err_0.message@ == "bash: dirs: "@ + sv(old(argv)@)[0] + ": invalid option"@),
            !(sv(old(argv)@).len() > 0 && !is_ligature_text(sv(old(argv)@)[0])) ==> (r is Ok && r->Ok_0.model() == StatementModel::Dirs),
            sv(final(argv)@) == from_delim(sv(old(argv)@)),
    {
        let ghost a0 = sv(argv@);
        if argv.len() > 0 {
            assert(a0[0] == argv@[0]@);
            if !ligature_text(&argv[0]) {
                let mut message = owned("bash: dirs: ");
                message.append(argv[0].as_str());
                message.append(": invalid option");
                self.cut_argv_to_delim(argv);
                return Err(ParserError::new(ParserErrorCode::TooManyArgs, message));
            }
        }
        self.cut_argv_to_delim(argv);
        Ok(ShellStatement::Dirs)
    }

    /// The code argument of `exit` and `return`.
    fn code_arg(&self, argv: &VecDeque<String>) -> (r: u8)
        ensures
            r == code_argument(sv(argv@)),
    {
        if argv.len() > 0 {
            assert(sv(argv@)[0] == argv@[0]@);
            if !ligature_text(&argv[0]) {
                return match parse_u8(argv[0].as_str()) {
                    Some(v) => v,
                    None => 2,
                };
            }
        }
        0
    }

    /// ### parse_exit
    ///
    /// Parses the arguments of `exit`: its code (2 when the argument is not a `u8`, 0
    /// without argument).
    pub fn parse_exit(&self, argv: &mut VecDeque<String>) -> (r: Result<ShellStatement, ParserError>)
        ensures
            r is Ok,
            r->Ok_0.model() == StatementModel::Exit(code_argument(sv(old(argv)@))),
            sv(final(argv)@) == from_delim(sv(old(argv)@)),
    {
        let code = self.code_arg(argv);
        self.cut_argv_to_delim(argv);
        Ok(ShellStatement::Exit(code))
    }

    /// ### parse_return
    ///
    /// Parses the arguments of `return`: its code (2 when the argument is not a `u8`, 0
    /// without argument).
    pub fn parse_return(&self, argv: &mut VecDeque<String>) -> (r: Result<ShellStatement, ParserError>)
        ensures
            r is Ok,
            r->Ok_0.model() == StatementModel::Return(code_argument(sv(old(argv)@))),
            sv(final(argv)@) == from_delim(sv(old(argv)@)),
    {
        let code = self.code_arg(argv);
        self.cut_argv_to_delim(argv);
        Ok(ShellStatement::Return(code))
    }
}

/// The commands that have parsers of their own: `alias`, `cd`, `dirs`, `exit`, `return`.
pub open spec fn is_builtin_name(s: Seq<char>) -> bool {
    s == seq!['a', 'l', 'i', 'a', 's'] || s == seq!['c', 'd'] || s == seq!['d', 'i', 'r', 's']
        || s == seq!['e', 'x', 'i', 't'] || s == seq!['r', 'e', 't', 'u', 'r', 'n']
}

/// Whether statements are one task running `command`, writing to stdout and stderr.
pub open spec fn single_task(statements: Seq<(ShellStatement, TaskRelation)>, command: Seq<Seq<char>>) -> bool {
    &&& statements.len() == 1
    &&& statements[0].1 == TaskRelation::Unrelated
    &&& statements[0].0 matches ShellStatement::Exec(t) && command_view(t.command) == command && t.next is None
        && t.stdout_redirection == Redirection::Stdout && t.stderr_redirection == Redirection::Stderr
}

/// The relation a joining ligature sets between two statements: `&&`, `||`, `|`, and the
/// separators `;` and `&`. `None` for the redirection ligatures.
pub open spec fn ligature_relation(s: Seq<char>) -> Option<TaskRelation> {
    if s == seq!['&', '&'] {
        Some(TaskRelation::And)
    } else if s == seq!['|', '|'] {
        Some(TaskRelation::Or)
    } else if s == seq!['|'] {
        Some(TaskRelation::Pipe)
    } else if s == seq![';'] || s == seq!['&'] {
        Some(TaskRelation::Unrelated)
    } else {
        None
    }
}

/// The relation a ligature sets.
fn relation_of(arg: &String) -> (r: Option<TaskRelation>)
    ensures
        r == ligature_relation(arg@),
{
    proof {
        reveal_strlit("&&");
        reveal_strlit("||");
        reveal_strlit("|");
        reveal_strlit(";");
        reveal_strlit("&");
        assert("&&"@ =~= seq!['&', '&']);
        assert("||"@ =~= seq!['|', '|']);
        assert("|"@ =~= seq!['|']);
        assert(";"@ =~= seq![';']);
        assert("&"@ =~= seq!['&']);
    }
    let a = arg.as_str();
    if str_is(a, "&&") {
        Some(TaskRelation::And)
    } else if str_is(a, "||") {
        Some(TaskRelation::Or)
    } else if str_is(a, "|") {
        Some(TaskRelation::Pipe)
    } else if str_is(a, ";") || str_is(a, "&") {
        Some(TaskRelation::Unrelated)
    } else {
        None
    }
}

/// The error for a ligature where a command was expected.
fn unexpected_token(arg: &String) -> (e: ParserError)
    ensures
        e.code == ParserErrorCode::BadToken,
{
    let mut message = owned("bash: syntax error near unexpected token `");
    message.append(arg.as_str());
    message.append("'");
    ParserError::new(ParserErrorCode::BadToken, message)
}

impl Bash {
    /// ### parse_argv
    ///
    /// Turns arguments into an expression. A statement runs up to the next ligature; `&&`,
    /// `||`, `|`, `;` and `&` set its relation to the next one, and commands joined by `&&`,
    /// `||` or `|` form one pipeline. `alias`, `cd`, `dirs`, `exit` and `return` are parsed
    /// by their own parsers; any other command becomes a task writing to stdout and stderr.
    /// A redirection ligature, or a ligature where a command is expected, is a bad token.
    /// The contract pins the result for no arguments, for one command without a ligature,
    /// and for a ligature first; of the other inputs it bounds the number of statements and
    /// the errors.
    pub fn parse_argv(&self, context: &ParseContext, argv: VecDeque<String>) -> (r: Result<ShellExpression, ParserError>)
        ensures
            argv@.len() == 0 ==> (r is Ok && r->Ok_0.statements@.len() == 0),
            r is Ok ==> r->Ok_0.statements@.len() <= argv@.len(),
            r is Err ==> (r->Err_0.code == ParserErrorCode::BadToken || r->Err_0.code == ParserErrorCode::TooManyArgs),
            argv@.len() > 0 && !is_builtin_name(argv@[0]@) && (forall|i: int| 0 <= i < argv@.len() ==> !is_ligature_text(#[trigger] argv@[i]@))
                ==> (r matches Ok(e) && single_task(e.statements@, sv(argv@))),
            argv@.len() > 0 && is_ligature_text(argv@[0]@) ==> (r matches Err(e) && e.code == ParserErrorCode::BadToken),
    {
        let ghost total = argv@.len();
        let ghost all = sv(argv@);
        let ghost plain = argv@.len() > 0 && !is_builtin_name(argv@[0]@) && (forall|i: int| 0 <= i < argv@.len() ==> !is_ligature_text(#[trigger] argv@[i]@));
        let mut args = argv;
        let mut statements: Vec<(ShellStatement, TaskRelation)> = Vec::new();
        let mut joined: Option<TaskRelation> = None;
        while args.len() > 0
            invariant
                statements@.len() + args@.len() <= total,
                total == 0 ==> args@.len() == 0,
                total == argv@.len(),
                all == sv(argv@),
                joined is Some ==> statements@.len() > 0,
                plain == (argv@.len() > 0 && !is_builtin_name(argv@[0]@) && (forall|i: int| 0 <= i < argv@.len() ==> !is_ligature_text(#[trigger] argv@[i]@))),
                plain ==> (statements@.len() == 0 && args@ == argv@ && joined is None)
                    || (args@.len() == 0 && single_task(statements@, all)),
                args@ == argv@ || statements@.len() > 0,
                argv@.len() > 0 && is_ligature_text(argv@[0]@) ==> args@ == argv@ && statements@.len() == 0,
            decreases args@.len(),
        {
            proof { lemma_args_before_delim_le(sv(args@).drop_first()); }
            let ghost args_before = args@;
            let first = args.pop_front().unwrap();
            proof {
                if plain && statements@.len() == 0 {
                    assert(first == argv@[0]);
                    assert(!is_ligature_text(argv@[0]@));
                    assert(first@ == all[0]);
                }
            }
            let ghost after_pop = args@.len();
            assert(sv(args@).len() == after_pop);
            proof { lemma_args_before_delim_le(sv(args@)); }
            if ligature_text(&first) {
                let rel = match relation_of(&first) {
                    Some(rel) => rel,
                    None => {
                        return Err(unexpected_token(&first));
                    },
                };
                if statements.len() == 0 || joined.is_some() {
                    return Err(unexpected_token(&first));
                }
                let (last, _) = statements.pop().unwrap();
                statements.push((last, rel));
                joined = Some(rel);
            } else {
                proof {
                    reveal_strlit("alias");
                    reveal_strlit("cd");
                    reveal_strlit("dirs");
                    reveal_strlit("exit");
                    reveal_strlit("return");
                    assert("alias"@ =~= seq!['a', 'l', 'i', 'a', 's']);
                    assert("cd"@ =~= seq!['c', 'd']);
                    assert("dirs"@ =~= seq!['d', 'i', 'r', 's']);
                    assert("exit"@ =~= seq!['e', 'x', 'i', 't']);
                    assert("return"@ =~= seq!['r', 'e', 't', 'u', 'r', 'n']);
                }
                let name = first.as_str();
                let ghost before = sv(args@);
                let parsed = if str_is(name, "alias") {
                    Some(self.parse_alias(context, &mut args))
                } else if str_is(name, "cd") {
                    Some(self.parse_cd(context, &mut args))
                } else if str_is(name, "dirs") {
                    Some(self.parse_dirs(&mut args))
                } else if str_is(name, "exit") {
                    Some(self.parse_exit(&mut args))
                } else if str_is(name, "return") {
                    Some(self.parse_return(&mut args))
                } else {
                    None
                };
                assert(sv(args@) == from_delim(before) || sv(args@) == before);
                assert(sv(args@).len() == args@.len());
                let ghost len_before = args@.len();
                assert(len_before <= after_pop);
                match parsed {
                    Some(Ok(statement)) => {
                        statements.push((statement, TaskRelation::Unrelated));
                    },
                    Some(Err(e)) => {
                        return Err(e);
                    },
                    None => {
                        let ghost first_view = first@;
                        let mut command: Vec<String> = Vec::new();
                        command.push(first);
                        proof {
                            if plain && statements@.len() == 0 {
                                assert(command_view(command) =~= seq![first_view]);
                                assert(sv(args@) =~= all.drop_first());
                                assert(command_view(command) + sv(args@) =~= all);
                            }
                        }
                        while args.len() > 0 && !ligature_text(&args[0])
                            invariant
                                args@.len() <= len_before,
                                plain && statements@.len() == 0 ==> command_view(command) + sv(args@) == all
                                    && (forall|i: int| 0 <= i < args@.len() ==> !is_ligature_text(#[trigger] args@[i]@)),
                            decreases args@.len(),
                        {
                            let ghost c0 = command_view(command);
                            let ghost a0 = sv(args@);
                            let ghost args0 = args@;
                            match args.pop_front() {
                                Some(a) => {
                                    command.push(a);
                                    proof {
                                        assert(command_view(command) =~= c0.push(a0[0]));
                                        assert(sv(args@) =~= a0.drop_first());
                                        assert(c0.push(a0[0]) + a0.drop_first() =~= c0 + a0);
                                        if plain && statements@.len() == 0 {
                                            assert forall|i: int| 0 <= i < args@.len() implies !is_ligature_text(#[trigger] args@[i]@) by {
                                                assert(args@[i] == args0[i + 1]);
                                            }
                                        }
                                    }
                                },
                                None => {},
                            }
                        }
                        proof {
                            if plain && statements@.len() == 0 {
                                if args@.len() > 0 {
                                    assert(!is_ligature_text(args@[0]@));
                                }
                                assert(sv(args@) =~= Seq::<Seq<char>>::empty());
                                assert(command_view(command) =~= all);
                            }
                        }
                        let extend = match joined {
                            Some(rel) => match statements.last() {
                                Some((ShellStatement::Exec(_), _)) => true,
                                _ => false,
                            },
                            None => false,
                        };
                        if extend {
                            let (last, rel) = statements.pop().unwrap();
                            match last {
                                ShellStatement::Exec(mut task) => {
                                    task.new_pipeline(command, Redirection::Stdout, Redirection::Stderr, rel);
                                    statements.push((ShellStatement::Exec(task), TaskRelation::Unrelated));
                                },
                                other => {
                                    statements.push((other, rel));
                                },
                            }
                        } else {
                            statements.push((ShellStatement::Exec(Task::new(command, Redirection::Stdout, Redirection::Stderr)), TaskRelation::Unrelated));
                        }
                    },
                }
                joined = None;
            }
        }
        Ok(ShellExpression::new(statements))
    }
}

impl Bash {
    /// ### eval_expression
    ///
    /// Parses an expression argument (the value of `export` or `set`) into an expression:
    /// it is tokenized, then parsed as a statement line.
    pub fn eval_expression(&self, context: &ParseContext, expression: &String) -> (r: Result<ShellExpression, ParserError>)
        ensures
            spec_readline(expression@) is Failed ==> r is Err,
            spec_readline(expression@) is Aborted ==> (r is Err && r->Err_0.code == ParserErrorCode::BadToken),
            match spec_readline(expression@) {
                ReadlineResult::Read(st) => st.argv.len() > 0 && !is_builtin_name(st.argv[0])
                    && (forall|i: int| 0 <= i < st.argv.len() ==> !is_ligature_text(#[trigger] st.argv[i]))
                    ==> (r matches Ok(e) && single_task(e.statements@, st.argv)),
                _ => true,
            },
    {
        match self.readline(expression) {
            Ok(argv) => {
                proof {
                    if let ReadlineResult::Read(st) = spec_readline(expression@) {
                        assert(sv(argv@) == st.argv);
                        assert forall|i: int| 0 <= i < argv@.len() implies #[trigger] argv@[i]@ == st.argv[i] by {
                            assert(sv(argv@)[i] == argv@[i]@);
                        }
                    }
                }
                self.parse_argv(context, argv)
            },
            Err(e) => Err(e),
        }
    }
}

impl ParseStatement for Bash {
    fn parse(&self, context: &ParseContext, statement: &String) -> (r: Result<ShellExpression, ParserError>)
        ensures
            spec_readline(statement@) is Failed ==> r is Err,
            spec_readline(statement@) is Aborted ==> (r is Err && r->Err_0.code == ParserErrorCode::BadToken),
            match spec_readline(statement@) {
                ReadlineResult::Read(st) => st.argv.len() > 0 && !is_builtin_name(st.argv[0])
                    && (forall|i: int| 0 <= i < st.argv.len() ==> !is_ligature_text(#[trigger] st.argv[i]))
                    ==> (r matches Ok(e) && single_task(e.statements@, st.argv)),
                _ => true,
            },
    {
        self.eval_expression(context, statement)
    }
}

/// Law: a line of plain words is read as those words, none of them an operator; by the
/// contract of `eval_expression`, such a line whose first word is no builtin's name is
/// parsed into one task running exactly those words.
pub proof fn law_plain_line_is_one_command(ws: Seq<Seq<char>>)
    requires
        forall|i: int| 0 <= i < ws.len() ==> plain_word(#[trigger] ws[i]),
    ensures
        spec_readline(join_space(ws)) matches ReadlineResult::Read(st) && st.argv == ws
            && forall|i: int| 0 <= i < st.argv.len() ==> !is_ligature_text(#[trigger] st.argv[i]),
{
    assert forall|i: int| 0 <= i < ws.len() implies token_word(#[trigger] ws[i]) by {}
    law_words_read_back(ws);
    assert forall|i: int| 0 <= i < ws.len() implies !is_ligature_text(#[trigger] ws[i]) by {
        let w = ws[i];
        assert(plain_word(w));
        assert(plain_char(w[0]));
    }
}

} // verus!
