//! # Builtins with options
//!
//! The parsers of `export` and `history`, whose arguments are command line options read
//! by getopts. Each parser takes its arguments up to the first ligature, has getopts match
//! them, and turns the match into a statement.

use super::bash::{alias_scan, args_before_delim, from_delim, is_builtin_name, is_ligature_text, ligature_text, single_task, Bash};
use super::options::{
    getopts_matches, getopts_parse, getopts_usage, getopts_usage_text, given, matches_view, option, option_views, valid_options, value_of,
    MatchesView, OptionSpec, OptionView,
};
use super::tokenizer::{spec_readline, sv, ReadlineResult};
use crate::session::{resolve_home_path, resolved_path};
use crate::statement::{HistoryModel, HistoryOptions, StatementModel};
use crate::text::{owned, parse_usize, push_char, chars_of, unsigned_text_value};
use crate::{ParseContext, ParserError, ParserErrorCode, ShellStatement};
use std::collections::VecDeque;
use vstd::prelude::*;

verus! {

/// The options of `export`: `-p` (`--print`) and `-h` (`--help`).
pub open spec fn export_option_views() -> Seq<OptionView> {
    seq![
        ("p"@, "print"@, "Print all exported variables"@, ""@, false),
        ("h"@, "help"@, "Display help"@, ""@, false),
    ]
}

/// The options of `history`: `-a <file>`, `-c`, `-d <offset>`, `-r <file>`, `-w <file>`
/// and `-h` (`--help`).
pub open spec fn history_option_views() -> Seq<OptionView> {
    seq![
        ("a"@, ""@, "Append the new history lines to the history file"@, "<file>"@, true),
        ("c"@, ""@, "Clear the history list. This may be combined with the other options to replace the history list completely."@, ""@, false),
        ("d"@, ""@, "Delete the history entry at position offset"@, "<offset>"@, true),
        ("r"@, ""@, "Read the history file and append its contents to the history list."@, "<file>"@, true),
        ("w"@, ""@, "Write out the current history list to the history file."@, "<file>"@, true),
        ("h"@, "help"@, "Display help"@, ""@, false),
    ]
}

/// The exported variables as plain values.
pub open spec fn environ_entries(environ: Seq<(String, String)>) -> Seq<(Seq<char>, Seq<char>)> {
    Seq::new(environ.len(), |i: int| (environ[i].0@, environ[i].1@))
}

/// The listing of the exported variables: a line `declare -x NAME=VALUE` for each.
pub open spec fn declare_text(environ: Seq<(Seq<char>, Seq<char>)>) -> Seq<char>
    decreases environ.len(),
{
    if environ.len() == 0 {
        Seq::empty()
    } else {
        declare_text(environ.drop_last()) + "declare -x "@ + environ.last().0 + "="@ + environ.last().1 + "\n"@
    }
}

/// The name an `export` argument assigns: what precedes its first unescaped `=`, or the
/// whole argument.
pub open spec fn export_key(arg: Seq<char>) -> Seq<char> {
    let st = alias_scan(arg, arg.len());
    match st.name {
        Some(n) => n,
        None => st.buff,
    }
}

/// The value an `export` argument assigns: what follows its first unescaped `=`, or
/// nothing.
pub open spec fn export_value(arg: Seq<char>) -> Seq<char> {
    let st = alias_scan(arg, arg.len());
    match st.name {
        Some(_) => st.buff,
        None => Seq::empty(),
    }
}

/// The statement `export` gives for a match, where the match alone decides it; `None`
/// when it assigns a variable.
pub open spec fn export_outcome(environ: Seq<(Seq<char>, Seq<char>)>, m: Result<MatchesView, Seq<char>>, usage: Seq<char>) -> Option<StatementModel> {
    match m {
        Err(e) => Some(StatementModel::Output(None, Some("bash: Export invalid option: "@ + e))),
        Ok(mm) => if given(mm, 1) {
            Some(StatementModel::Output(Some(usage), None))
        } else if given(mm, 0) || mm.2.len() == 0 {
            Some(StatementModel::Output(Some(declare_text(environ)), None))
        } else {
            None
        },
    }
}

/// What `export NAME=VALUE` gives: an export of `NAME`, with `VALUE` parsed as an
/// expression; a value that cannot be read is an error.
pub open spec fn export_assignment(arg: Seq<char>, r: Result<ShellStatement, ParserError>) -> bool {
    let value = export_value(arg);
    &&& (r matches Ok(s) ==> (s matches ShellStatement::Export(k, _) && k@ == export_key(arg)))
    &&& (spec_readline(value) is Failed ==> r is Err)
    &&& (spec_readline(value) is Aborted ==> (r is Err && r->Err_0.code == ParserErrorCode::BadToken))
    &&& match spec_readline(value) {
        ReadlineResult::Read(st) => st.argv.len() > 0 && !is_builtin_name(st.argv[0])
            && (forall|i: int| 0 <= i < st.argv.len() ==> !is_ligature_text(#[trigger] st.argv[i]))
            ==> (r matches Ok(ShellStatement::Export(_, e)) && single_task(e.statements@, st.argv)),
        _ => true,
    }
}

/// The statement, or the error message, `history` gives for a match.
pub open spec fn history_outcome(home: Seq<char>, m: Result<MatchesView, Seq<char>>, usage: Seq<char>) -> Result<StatementModel, Seq<char>> {
    match m {
        Err(e) => Ok(StatementModel::Output(None, Some("bash: History invalid option: "@ + e))),
        Ok(mm) => if given(mm, 5) {
            Ok(StatementModel::Output(Some(usage), None))
        } else if value_of(mm, 0) is Some {
            Ok(StatementModel::History(HistoryModel::Write(resolved_path(home, value_of(mm, 0)->0), false)))
        } else if given(mm, 1) {
            Ok(StatementModel::History(HistoryModel::Clear))
        } else if value_of(mm, 2) is Some {
            match unsigned_text_value(value_of(mm, 2)->0) {
                Some(v) => if v <= usize::MAX {
                    Ok(StatementModel::History(HistoryModel::Del(v as usize)))
                } else {
                    Err("history del index must be a number"@)
                },
                None => Err("history del index must be a number"@),
            }
        } else if value_of(mm, 3) is Some {
            Ok(StatementModel::History(HistoryModel::Read(resolved_path(home, value_of(mm, 3)->0))))
        } else if value_of(mm, 4) is Some {
            Ok(StatementModel::History(HistoryModel::Write(resolved_path(home, value_of(mm, 4)->0), true)))
        } else {
            Ok(StatementModel::History(HistoryModel::Print))
        },
    }
}

/// A parser result against a `history_outcome`: the statement, or a `TooManyArgs` error
/// with the message.
pub open spec fn gives(r: Result<ShellStatement, ParserError>, outcome: Result<StatementModel, Seq<char>>) -> bool {
    match outcome {
        Ok(model) => r is Ok && r->Ok_0.model() == model,
        Err(msg) => r is Err && r->Err_0.code == ParserErrorCode::TooManyArgs && r->Err_0.message@ == msg,
    }
}

/// The options of `export`.
fn export_options() -> (r: Vec<OptionSpec>)
    ensures
        option_views(r@) == export_option_views(),
        valid_options(option_views(r@)),
{
    let r = vec![
        option("p", "print", "Print all exported variables", "", false),
        option("h", "help", "Display help", "", false),
    ];
    proof {
        reveal_strlit("p");
        reveal_strlit("print");
        reveal_strlit("h");
        reveal_strlit("help");
        assert(option_views(r@) =~= export_option_views());
    }
    r
}

/// The options of `history`.
fn history_options() -> (r: Vec<OptionSpec>)
    ensures
        option_views(r@) == history_option_views(),
        valid_options(option_views(r@)),
{
    let r = vec![
        option("a", "", "Append the new history lines to the history file", "<file>", true),
        option("c", "", "Clear the history list. This may be combined with the other options to replace the history list completely.", "", false),
        option("d", "", "Delete the history entry at position offset", "<offset>", true),
        option("r", "", "Read the history file and append its contents to the history list.", "<file>", true),
        option("w", "", "Write out the current history list to the history file.", "<file>", true),
        option("h", "help", "Display help", "", false),
    ];
    proof {
        reveal_strlit("a");
        reveal_strlit("c");
        reveal_strlit("d");
        reveal_strlit("r");
        reveal_strlit("w");
        reveal_strlit("h");
        reveal_strlit("");
        reveal_strlit("help");
        assert(option_views(r@) =~= history_option_views());
    }
    r
}

/// The listing of the exported variables.
fn declare_all(environ: &Vec<(String, String)>) -> (r: String)
    ensures
        r@ == declare_text(environ_entries(environ@)),
{
    let mut r = String::new();
    let n = environ.len();
    for i in 0..n
        invariant
            n == environ@.len(),
            r@ == declare_text(environ_entries(environ@).take(i as int)),
    {
        let ghost e = environ_entries(environ@);
        r.append("declare -x ");
        r.append(environ[i].0.as_str());
        r.append("=");
        r.append(environ[i].1.as_str());
        r.append("\n");
        assert(e.take(i + 1).drop_last() =~= e.take(i as int));
    }
    assert(environ_entries(environ@).take(n as int) =~= environ_entries(environ@));
    r
}

/// Splits an `export` argument at its first unescaped `=`.
fn split_assignment(arg: &String) -> (r: (String, String))
    ensures
        r.0@ == export_key(arg@),
        r.1@ == export_value(arg@),
{
    let chars = chars_of(arg.as_str());
    let mut name: Option<String> = None;
    let mut buff = String::new();
    let mut escaped = false;
    let n = chars.len();
    for i in 0..n
        invariant
            n == chars@.len(),
            chars@ == arg@,
            alias_scan(arg@, i as nat) == (super::bash::AliasScan {
                name: match name {
                    Some(s) => Some(s@),
                    None => None,
                },
                buff: buff@,
                escaped: escaped,
            }),
    {
        let c = chars[i];
        if !escaped && c == '=' && name.is_none() {
            name = Some(buff);
            buff = String::new();
        } else {
            escaped = c == '\\' && !escaped;
            push_char(&mut buff, c);
        }
    }
    match name {
        Some(k) => (k, buff),
        None => (buff, String::new()),
    }
}

/// The arguments before the first ligature.
fn leading_args(argv: &VecDeque<String>) -> (r: Vec<String>)
    ensures
        sv(r@) == sv(argv@).take(args_before_delim(sv(argv@)) as int),
{
    let ghost a = sv(argv@);
    let mut r: Vec<String> = Vec::new();
    let mut i: usize = 0;
    let n = argv.len();
    assert(a.skip(0) =~= a);
    while i < n && !ligature_text(&argv[i])
        invariant
            n == argv@.len(),
            a == sv(argv@),
            i <= n,
            sv(r@) == a.take(i as int),
            args_before_delim(a) == i + args_before_delim(a.skip(i as int)),
        decreases n - i,
    {
        assert(a[i as int] == argv@[i as int]@);
        assert(a.skip(i as int).drop_first() =~= a.skip(i + 1));
        let ghost r0 = r@;
        assert(sv(r0).len() == r0.len());
        assert(a.take(i as int).len() == i);
        assert(r0.len() == i);
        let s = argv[i].clone();
        r.push(s);
        assert forall|j: int| 0 <= j < r@.len() implies #[trigger] sv(r@)[j] == a.take(i + 1)[j] by {
            if j < i {
                assert(r@[j] == r0[j]);
                assert(sv(r0)[j] == r0[j]@);
            }
        }
        assert(sv(r@) =~= a.take(i + 1));
        i = i + 1;
    }
    proof {
        if i < n {
            assert(a[i as int] == argv@[i as int]@);
            assert(a.skip(i as int)[0] == a[i as int]);
        }
        assert(args_before_delim(a.skip(i as int)) == 0);
    }
    r
}

impl Bash {
    /// ### parse_export
    ///
    /// Parses the arguments of `export`: `-h` gives the help, `-p` or no argument the
    /// listing of the exported variables, `NAME=VALUE` the export of `NAME` with `VALUE`
    /// parsed as an expression; an unknown option is reported on the error output.
    pub fn parse_export(&self, context: &ParseContext, argv: &mut VecDeque<String>) -> (r: Result<ShellStatement, ParserError>)
        ensures
            ({
                let args = sv(old(argv)@).take(args_before_delim(sv(old(argv)@)) as int);
                let m = getopts_matches(export_option_views(), args);
                match export_outcome(environ_entries(context.environ@), m, getopts_usage_text("export"@, export_option_views())) {
                    Some(model) => r is Ok && r->Ok_0.model() == model,
                    None => export_assignment(m->Ok_0.2[0], r),
                }
            }),
            sv(final(argv)@) == from_delim(sv(old(argv)@)),
    {
        let args = leading_args(argv);
        self.cut_argv_to_delim(argv);
        let options = export_options();
        let matches = getopts_parse(&options, &args);
        let help = match &matches {
            Ok(t) => t.0.len() > 1 && t.0[1],
            Err(_) => false,
        };
        let usage = if help {
            getopts_usage("export", &options)
        } else {
            String::new()
        };
        self.export_statement(context, &matches, usage)
    }

    /// The statement `export` gives for a getopts match of its arguments (options `-p`
    /// then `-h`) and its help text.
    pub fn export_statement(
        &self,
        context: &ParseContext,
        matches: &Result<(Vec<bool>, Vec<Option<String>>, Vec<String>), String>,
        usage: String,
    ) -> (r: Result<ShellStatement, ParserError>)
        ensures
            match export_outcome(environ_entries(context.environ@), matches_view(*matches), usage@) {
                Some(model) => r is Ok && r->Ok_0.model() == model,
                None => export_assignment(matches_view(*matches)->Ok_0.2[0], r),
            },
    {
        match matches {
            Err(e) => {
                let mut text = owned("bash: Export invalid option: ");
                text.append(e.as_str());
                Ok(ShellStatement::Output(None, Some(text)))
            },
            Ok(t) => {
                if t.0.len() > 1 && t.0[1] {
                    Ok(ShellStatement::Output(Some(usage), None))
                } else if (t.0.len() > 0 && t.0[0]) || t.2.len() == 0 {
                    Ok(ShellStatement::Output(Some(declare_all(&context.environ)), None))
                } else {
                    assert(sv(t.2@)[0] == t.2@[0]@);
                    let (key, value) = split_assignment(&t.2[0]);
                    match self.eval_expression(context, &value) {
                        Ok(expr) => Ok(ShellStatement::Export(key, expr)),
                        Err(err) => Err(err),
                    }
                }
            },
        }
    }

    /// ### parse_history
    ///
    /// Parses the arguments of `history`: `-h` gives the help, `-a FILE` appends the new
    /// lines to a file, `-c` clears the history, `-d OFFSET` deletes an entry, `-r FILE`
    /// reads a file, `-w FILE` writes the history to a file (in this order of precedence,
    /// a leading `~` in a file name standing for the home directory), and no option prints
    /// the history; an unknown option is reported on the error output.
    pub fn parse_history(&self, context: &ParseContext, argv: &mut VecDeque<String>) -> (r: Result<ShellStatement, ParserError>)
        ensures
            gives(
                r,
                history_outcome(
                    context.home_dir@,
                    getopts_matches(history_option_views(), sv(old(argv)@).take(args_before_delim(sv(old(argv)@)) as int)),
                    getopts_usage_text("history"@, history_option_views()),
                ),
            ),
            sv(final(argv)@) == from_delim(sv(old(argv)@)),
    {
        let args = leading_args(argv);
        self.cut_argv_to_delim(argv);
        let options = history_options();
        let matches = getopts_parse(&options, &args);
        let help = match &matches {
            Ok(t) => t.0.len() > 5 && t.0[5],
            Err(_) => false,
        };
        let usage = if help {
            getopts_usage("history", &options)
        } else {
            String::new()
        };
        self.history_statement(context, &matches, usage)
    }

    /// The statement `history` gives for a getopts match of its arguments (options `-a`,
    /// `-c`, `-d`, `-r`, `-w` then `-h`) and its help text.
    pub fn history_statement(
        &self,
        context: &ParseContext,
        matches: &Result<(Vec<bool>, Vec<Option<String>>, Vec<String>), String>,
        usage: String,
    ) -> (r: Result<ShellStatement, ParserError>)
        ensures
            gives(r, history_outcome(context.home_dir@, matches_view(*matches), usage@)),
    {
        match matches {
            Err(e) => {
                let mut text = owned("bash: History invalid option: ");
                text.append(e.as_str());
                Ok(ShellStatement::Output(None, Some(text)))
            },
            Ok(t) => {
                if t.0.len() > 5 && t.0[5] {
                    return Ok(ShellStatement::Output(Some(usage), None));
                }
                if t.1.len() > 0 {
                    if let Some(file) = &t.1[0] {
                        let file = resolve_home_path(&context.home_dir, file.clone());
                        return Ok(ShellStatement::History(HistoryOptions::Write(file, false)));
                    }
                }
                if t.0.len() > 1 && t.0[1] {
                    return Ok(ShellStatement::History(HistoryOptions::Clear));
                }
                if t.1.len() > 2 {
                    if let Some(index) = &t.1[2] {
                        return match parse_usize(index.as_str()) {
                            Some(i) => Ok(ShellStatement::History(HistoryOptions::Del(i))),
                            None => Err(ParserError::new(ParserErrorCode::TooManyArgs, owned("history del index must be a number"))),
                        };
                    }
                }
                if t.1.len() > 3 {
                    if let Some(file) = &t.1[3] {
                        let file = resolve_home_path(&context.home_dir, file.clone());
                        return Ok(ShellStatement::History(HistoryOptions::Read(file)));
                    }
                }
                if t.1.len() > 4 {
                    if let Some(file) = &t.1[4] {
                        let file = resolve_home_path(&context.home_dir, file.clone());
                        return Ok(ShellStatement::History(HistoryOptions::Write(file, true)));
                    }
                }
                Ok(ShellStatement::History(HistoryOptions::Print))
            },
        }
    }
}

} // verus!
