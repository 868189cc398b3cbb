//! Tests of the Bash parser: tokenizer, statement parsers and block states.

use shell_core::parsers::bash::Bash;
use shell_core::parsers::state::{BashParserBlock, BashParserState};
use shell_core::statement::ShellStatement;
use shell_core::{ParseContext, ParseStatement, ParserError, ParserErrorCode, TaskRelation};
use std::collections::VecDeque;

/// A parse context with a home and a previous directory.
fn context() -> ParseContext {
    ParseContext { home_dir: String::from("/home/user"), prev_dir: String::from("/var/log"), environ: Vec::new() }
}

#[test]
fn test_bash_parser_state_new() {
    let parser_state: BashParserState = BashParserState::new();
    assert_eq!(parser_state.states.len(), 0);
    assert!(parser_state.empty());
    assert_eq!(parser_state.previous_char, ' ');
}

#[test]
fn test_bash_parser_readline() {
    let parser: Bash = Bash::new();
    assert_eq!(parser.readline(&String::from("cd /tmp/")).unwrap(), vec![String::from("cd"), String::from("/tmp/")]);
    assert_eq!(parser.readline(&String::from("cd;")).unwrap(), vec![String::from("cd"), String::from(";")]);
    assert_eq!(parser.readline(&String::from("echo \"foo bar\"")).unwrap(), vec![String::from("echo"), String::from("foo bar")]);
    assert_eq!(parser.readline(&String::from("echo \"'foo' 'bar'\"")).unwrap(), vec![String::from("echo"), String::from("'foo' 'bar'")]);
    assert_eq!(parser.readline(&String::from("echo \"\\\"foo bar\\\"\"")).unwrap(), vec![String::from("echo"), String::from("\"foo bar\"")]);
    //Escapes
    assert_eq!(parser.readline(&String::from("cd \\;")).unwrap(), vec![String::from("cd"), String::from("\\;")]);
    //Try error
    assert!(parser.readline(&String::from("echo \"$(pw\"d)")).is_err());
    //Over lines
    assert_eq!(parser.readline(&String::from("cd /tmp/\ncd /home/")).unwrap(), vec![String::from("cd"), String::from("/tmp/"), String::from(";"), String::from("cd"), String::from("/home/")]);
    //Separators (&&)
    assert_eq!(parser.readline(&String::from("cd /tmp/ && exit")).unwrap(), vec![String::from("cd"), String::from("/tmp/"), String::from("&&"), String::from("exit")]);
    assert_eq!(parser.readline(&String::from("cd /tmp/ &&exit")).unwrap(), vec![String::from("cd"), String::from("/tmp/"), String::from("&&"), String::from("exit")]);
    assert_eq!(parser.readline(&String::from("cd /tmp/&&exit")).unwrap(), vec![String::from("cd"), String::from("/tmp/"), String::from("&&"), String::from("exit")]);
    //Separators (||)
    assert_eq!(parser.readline(&String::from("cd /tmp/ || exit")).unwrap(), vec![String::from("cd"), String::from("/tmp/"), String::from("||"), String::from("exit")]);
    assert_eq!(parser.readline(&String::from("cd /tmp/ ||exit")).unwrap(), vec![String::from("cd"), String::from("/tmp/"), String::from("||"), String::from("exit")]);
    assert_eq!(parser.readline(&String::from("cd /tmp/||exit")).unwrap(), vec![String::from("cd"), String::from("/tmp/"), String::from("||"), String::from("exit")]);
    //Separators (|)
    assert_eq!(parser.readline(&String::from("cd /tmp/ | exit")).unwrap(), vec![String::from("cd"), String::from("/tmp/"), String::from("|"), String::from("exit")]);
    assert_eq!(parser.readline(&String::from("cd /tmp/ |exit")).unwrap(), vec![String::from("cd"), String::from("/tmp/"), String::from("|"), String::from("exit")]);
    assert_eq!(parser.readline(&String::from("cd /tmp/|exit")).unwrap(), vec![String::from("cd"), String::from("/tmp/"), String::from("|"), String::from("exit")]);
    //Separators (;)
    assert_eq!(parser.readline(&String::from("cd /tmp/ ; exit")).unwrap(), vec![String::from("cd"), String::from("/tmp/"), String::from(";"), String::from("exit")]);
    assert_eq!(parser.readline(&String::from("cd /tmp/ ;exit")).unwrap(), vec![String::from("cd"), String::from("/tmp/"), String::from(";"), String::from("exit")]);
    assert_eq!(parser.readline(&String::from("cd /tmp/;exit")).unwrap(), vec![String::from("cd"), String::from("/tmp/"), String::from(";"), String::from("exit")]);
    //Separators (>>)
    assert_eq!(parser.readline(&String::from("cd /tmp/ >> exit")).unwrap(), vec![String::from("cd"), String::from("/tmp/"), String::from(">>"), String::from("exit")]);
    assert_eq!(parser.readline(&String::from("cd /tmp/ >>exit")).unwrap(), vec![String::from("cd"), String::from("/tmp/"), String::from(">>"), String::from("exit")]);
    assert_eq!(parser.readline(&String::from("cd /tmp/>>exit")).unwrap(), vec![String::from("cd"), String::from("/tmp/"), String::from(">>"), String::from("exit")]);
    //Separators (<<)
    assert_eq!(parser.readline(&String::from("cd /tmp/ << exit")).unwrap(), vec![String::from("cd"), String::from("/tmp/"), String::from("<<"), String::from("exit")]);
    assert_eq!(parser.readline(&String::from("cd /tmp/ <<exit")).unwrap(), vec![String::from("cd"), String::from("/tmp/"), String::from("<<"), String::from("exit")]);
    assert_eq!(parser.readline(&String::from("cd /tmp/<<exit")).unwrap(), vec![String::from("cd"), String::from("/tmp/"), String::from("<<"), String::from("exit")]);
    //Separators (>)
    assert_eq!(parser.readline(&String::from("cd /tmp/ > exit")).unwrap(), vec![String::from("cd"), String::from("/tmp/"), String::from(">"), String::from("exit")]);
    assert_eq!(parser.readline(&String::from("cd /tmp/ >exit")).unwrap(), vec![String::from("cd"), String::from("/tmp/"), String::from(">"), String::from("exit")]);
    assert_eq!(parser.readline(&String::from("cd /tmp/>exit")).unwrap(), vec![String::from("cd"), String::from("/tmp/"), String::from(">"), String::from("exit")]);
    //Separators (<)
    assert_eq!(parser.readline(&String::from("cd /tmp/ < exit")).unwrap(), vec![String::from("cd"), String::from("/tmp/"), String::from("<"), String::from("exit")]);
    assert_eq!(parser.readline(&String::from("cd /tmp/ <exit")).unwrap(), vec![String::from("cd"), String::from("/tmp/"), String::from("<"), String::from("exit")]);
    assert_eq!(parser.readline(&String::from("cd /tmp/<exit")).unwrap(), vec![String::from("cd"), String::from("/tmp/"), String::from("<"), String::from("exit")]);
}


#[test]
fn test_bash_parser_alias() {
    let core = context();
    let parser: Bash = Bash::new();
    //Simple set case
    let mut input: VecDeque<String> = parser.readline(&String::from("l=ls")).unwrap();
    assert!(parser.parse_alias(&core, &mut input).unwrap() == ShellStatement::Alias(Some(String::from("l")), Some(String::from("ls"))));
    assert_eq!(input.len(), 0); //Should be empty
    //Simple set case with quote
    let mut input: VecDeque<String> = parser.readline(&String::from("ll='ls -l'")).unwrap();
    assert!(parser.parse_alias(&core, &mut input).unwrap() == ShellStatement::Alias(Some(String::from("ll")), Some(String::from("ls -l"))));
    assert_eq!(input.len(), 0); //Should be empty
    let mut input: VecDeque<String> = parser.readline(&String::from("ll=\"ls -l\"")).unwrap();
    assert!(parser.parse_alias(&core, &mut input).unwrap() == ShellStatement::Alias(Some(String::from("ll")), Some(String::from("ls -l"))));
    assert_eq!(input.len(), 0); //Should be empty
    //Set case with escapes
    let mut input: VecDeque<String> = parser.readline(&String::from("noise='echo \"ZZZ\"'")).unwrap();
    assert!(parser.parse_alias(&core, &mut input).unwrap() == ShellStatement::Alias(Some(String::from("noise")), Some(String::from("echo \"ZZZ\""))));
    assert_eq!(input.len(), 0); //Should be empty
    let mut input: VecDeque<String> = parser.readline(&String::from("noise='echo \\'ZZZ\\''")).unwrap();
    assert!(parser.parse_alias(&core, &mut input).unwrap() == ShellStatement::Alias(Some(String::from("noise")), Some(String::from("echo \\'ZZZ\\'"))));
    assert_eq!(input.len(), 0); //Should be empty
    //Alias getter
    let mut input: VecDeque<String> = parser.readline(&String::from("ll")).unwrap();
    assert!(parser.parse_alias(&core, &mut input).unwrap() == ShellStatement::Alias(Some(String::from("ll")), None));
    assert_eq!(input.len(), 0); //Should be empty
    //Alias get all
    let mut input: VecDeque<String> = VecDeque::new();
    assert!(parser.parse_alias(&core, &mut input).unwrap() == ShellStatement::Alias(None, None));
    assert_eq!(input.len(), 0); //Should be empty
}

#[test]
fn test_bash_parser_cd() {
    let core = context();
    let parser: Bash = Bash::new();
    //Simple case
    let mut input: VecDeque<String> = parser.readline(&String::from("/tmp")).unwrap();
    assert!(parser.parse_cd(&core, &mut input).unwrap() == ShellStatement::Cd(String::from("/tmp")));
    assert_eq!(input.len(), 0); //Should be empty
    //With semicolon
    let mut input: VecDeque<String> = parser.readline(&String::from("/tmp;")).unwrap();
    assert!(parser.parse_cd(&core, &mut input).unwrap() == ShellStatement::Cd(String::from("/tmp")));
    assert_eq!(input, vec![String::from(";")]);
    //With newline
    let mut input: VecDeque<String> = parser.readline(&String::from("/tmp\n")).unwrap();
    assert!(parser.parse_cd(&core, &mut input).unwrap() == ShellStatement::Cd(String::from("/tmp")));
    assert_eq!(input.len(), 0); //Should be empty
    //Too many arguments
    let mut input: VecDeque<String> = parser.readline(&String::from("/tmp /home/")).unwrap();
    assert!(parser.parse_cd(&core, &mut input).is_err());
    assert_eq!(input.len(), 0); //Should be empty
    //Too many arguments 2
    let mut input: VecDeque<String> = parser.readline(&String::from("/tmp /home/;")).unwrap();
    assert!(parser.parse_cd(&core, &mut input).is_err());
    assert_eq!(input, vec![String::from(";")]);
    //False too many arguments
    let mut input: VecDeque<String> = parser.readline(&String::from("/tmp ;")).unwrap();
    assert!(parser.parse_cd(&core, &mut input).unwrap() == ShellStatement::Cd(String::from("/tmp")));
    assert_eq!(input, vec![String::from(";")]);
    //Too many arguments due to escape
    let mut input: VecDeque<String> = parser.readline(&String::from("/tmp \\;")).unwrap();
    assert!(parser.parse_cd(&core, &mut input).is_err());
    assert_eq!(input.len(), 0); //Should be empty
    //Quotes
    let mut input: VecDeque<String> = parser.readline(&String::from("\"/home\"")).unwrap();
    assert!(parser.parse_cd(&core, &mut input).unwrap() == ShellStatement::Cd(String::from("/home/")));
    assert_eq!(input.len(), 0); //Should be empty
    //Escaped quotes
    let mut input: VecDeque<String> = parser.readline(&String::from("/home/\\\"foo\\\"")).unwrap();
    assert!(parser.parse_cd(&core, &mut input).unwrap() == ShellStatement::Cd(String::from("/home/\"foo\"")));
    assert_eq!(input.len(), 0); //Should be empty
    //With and
    let mut input: VecDeque<String> = parser.readline(&String::from("/tmp &&")).unwrap();
    assert!(parser.parse_cd(&core, &mut input).unwrap() == ShellStatement::Cd(String::from("/tmp")));
    assert_eq!(input, vec![String::from("&&")]); //Should be &&
    //Special cases
    let mut input: VecDeque<String> = parser.readline(&String::from("~")).unwrap();
    assert!(parser.parse_cd(&core, &mut input).unwrap() == ShellStatement::Cd(core.home_dir.clone()));
    assert_eq!(input.len(), 0); //Should be empty
    let mut input: VecDeque<String> = parser.readline(&String::from("-")).unwrap();
    assert!(parser.parse_cd(&core, &mut input).unwrap() == ShellStatement::Cd(core.prev_dir.clone()));
    assert_eq!(input.len(), 0); //Should be empty
}

#[test]
fn test_bash_parser_dirs() {
    let parser: Bash = Bash::new();
    //Simple case
    let mut input: VecDeque<String> = parser.readline(&String::from("")).unwrap();
    assert!(parser.parse_dirs(&mut input).unwrap() == ShellStatement::Dirs);
    assert_eq!(input.len(), 0); //Should be empty
    //Arg is ligature
    let mut input: VecDeque<String> = parser.readline(&String::from(";")).unwrap();
    assert!(parser.parse_dirs(&mut input).unwrap() == ShellStatement::Dirs);
    assert_eq!(input.len(), 1);
    //Bad arg
    let mut input: VecDeque<String> = parser.readline(&String::from("a")).unwrap();
    assert!(parser.parse_dirs(&mut input).is_err());
    assert_eq!(input.len(), 0); //Should be empty
}

#[test]
fn test_bash_parser_exit() {
    let parser: Bash = Bash::new();
    //Simple case
    let mut input: VecDeque<String> = parser.readline(&String::from("0")).unwrap();
    assert!(parser.parse_exit(&mut input).unwrap() == ShellStatement::Exit(0));
    assert_eq!(input.len(), 0); //Should be empty
    //Simple case
    let mut input: VecDeque<String> = parser.readline(&String::from("128")).unwrap();
    assert!(parser.parse_exit(&mut input).unwrap() == ShellStatement::Exit(128));
    assert_eq!(input.len(), 0); //Should be empty
    //Bad case
    let mut input: VecDeque<String> = parser.readline(&String::from("foobar")).unwrap();
    assert!(parser.parse_exit(&mut input).unwrap() == ShellStatement::Exit(2));
    assert_eq!(input.len(), 0); //Should be empty
    //No arg
    let mut input: VecDeque<String> = VecDeque::new();
    assert!(parser.parse_exit(&mut input).unwrap() == ShellStatement::Exit(0));
    assert_eq!(input.len(), 0); //Should be empty
}

#[test]
fn test_bash_parser_return() {
    let parser: Bash = Bash::new();
    //Simple case
    let mut input: VecDeque<String> = parser.readline(&String::from("0")).unwrap();
    assert!(parser.parse_return(&mut input).unwrap() == ShellStatement::Return(0));
    assert_eq!(input.len(), 0); //Should be empty
    //Simple case
    let mut input: VecDeque<String> = parser.readline(&String::from("128")).unwrap();
    assert!(parser.parse_return(&mut input).unwrap() == ShellStatement::Return(128));
    assert_eq!(input.len(), 0); //Should be empty
    //Bad case
    let mut input: VecDeque<String> = parser.readline(&String::from("foobar")).unwrap();
    assert!(parser.parse_return(&mut input).unwrap() == ShellStatement::Return(2));
    assert_eq!(input.len(), 0); //Should be empty
    //No arg
    let mut input: VecDeque<String> = VecDeque::new();
    assert!(parser.parse_return(&mut input).unwrap() == ShellStatement::Return(0));
    assert_eq!(input.len(), 0); //Should be empty
}

#[test]
fn test_bash_parser_state_is_on_top() {
    let mut parser_state: BashParserState = BashParserState::new();
    //Stack
    parser_state.stack_state(BashParserBlock::Quoted('"'));
    assert!(parser_state.is_on_top(BashParserBlock::Quoted('"')));
    //Check another quote, but with tick
    assert!(! parser_state.is_on_top(BashParserBlock::Quoted('\'')));
    assert!(! parser_state.is_on_top(BashParserBlock::Escaped));
    //Pop
    parser_state.pop();
    assert!(! parser_state.is_on_top(BashParserBlock::Quoted('"')));
}

#[test]
fn test_bash_parser_state_funcs() {
    let mut states: BashParserState = BashParserState::new();
    assert!(! states.is_in_for_loop());
    states.open_for_loop();
    assert!(states.is_on_top(BashParserBlock::ForLoop));
    assert!(states.is_in_for_loop());
    //Open while loop on top
    states.open_while_loop();
    assert!(! states.is_on_top(BashParserBlock::ForLoop));
    assert!(states.is_on_top(BashParserBlock::WhileLoop));
    assert!(states.is_in_while_loop());
    assert!(! states.is_in_for_loop()); //For loop no more on top
    assert!(states.close_for_loop().is_err()); //Can't close for loop before while
    assert!(states.close_while_loop().is_ok());
    assert!(! states.is_on_top(BashParserBlock::WhileLoop));
    //Now for loop can be closed
    assert!(states.close_for_loop().is_ok());
}

#[test]
fn test_bash_parser_state_update() {
    let mut states: BashParserState = BashParserState::new();
    //Check escape
    assert!(states.update_state('\\').is_none());
    assert!(states.is_on_top(BashParserBlock::Escaped));
    assert!(states.is_escaped());
    assert_eq!(states.previous_char, '\\');
    //Try with another backslash
    states.update_state('\\');
    assert!(! states.is_on_top(BashParserBlock::Escaped));
    assert_eq!(states.previous_char, '\\');
    //Check if escape terminates
    assert!(states.update_state('\\').is_none());
    assert!(states.is_on_top(BashParserBlock::Escaped));
    assert!(states.is_escaped());
    assert_eq!(states.previous_char, '\\');
    assert!(states.update_state('a').is_none());
    assert!(! states.is_on_top(BashParserBlock::Escaped));
    assert!(! states.is_escaped());
    //Try quotes
    states.update_state('"');
    assert!(states.is_on_top(BashParserBlock::Quoted('"')));
    assert!(states.is_quoted());
    assert_eq!(states.previous_char, '"');
    //Try a '
    states.update_state('\'');
    assert!(states.is_on_top(BashParserBlock::Quoted('"')));
    //Close quotes
    states.update_state('"');
    assert!(! states.is_on_top(BashParserBlock::Quoted('"')));

    //Try quotes with tick
    states.update_state('\'');
    assert!(states.is_on_top(BashParserBlock::Quoted('\'')));
    assert!(states.is_quoted());
    assert_eq!(states.previous_char, '\'');
    //Try a "
    states.update_state('"');
    assert!(states.is_on_top(BashParserBlock::Quoted('\'')));
    //Close quotes
    states.update_state('\'');
    assert!(! states.is_on_top(BashParserBlock::Quoted('\'')));

    //Try expressions
    states.update_state('$'); //Prepare expression with $
    states.update_state('('); //Open expression now
    assert!(states.is_on_top(BashParserBlock::Expression('(')));
    assert!(states.is_inside_expression());
    //Close expression
    states.update_state(')');
    assert!(! states.is_on_top(BashParserBlock::Expression('(')));
    assert!(! states.is_inside_expression());
    //@! Bad expressions
    //Try to close an unopened expression 
    assert_eq!(states.update_state(')').unwrap(), ParserErrorCode::BadToken);
    //Try to open an expression while quoted
    states.update_state('"');
    assert!(states.is_quoted());
    //Open expression (won't open)
    states.update_state('(');
    assert_eq!(states.previous_char, '(');
    assert!(! states.is_inside_expression());
    states.update_state('"');
    assert!(! states.is_quoted());
    //Try to close an expression while quoted
    states.update_state('`');
    assert!(states.is_inside_expression());
    states.update_state('"');
    assert!(states.is_quoted());
    states.update_state('`');
    assert!(! states.is_inside_expression()); //Not on top
    //Close quote and expression
    states.update_state('"');
    //Should still be in expression
    assert!(states.is_inside_expression());
    assert!(! states.is_quoted());
    states.update_state('`');
    assert!(! states.is_inside_expression());
}


#[test]
fn test_parser_error_new() {
    let error: ParserError = ParserError::new(ParserErrorCode::BadToken, String::from("Bad token at row 0, column 12"));
    assert_eq!(error.code, ParserErrorCode::BadToken);
    assert_eq!(error.message, String::from("Bad token at row 0, column 12"));
}

#[test]
fn bash_readline_bad_token_reports_index() {
    let parser = Bash::new();
    let err = parser.readline(&String::from("echo )")).err().unwrap();
    assert_eq!(err.code, ParserErrorCode::BadToken);
    assert_eq!(err.message, String::from("bash: error at 5"));
}

#[test]
fn bash_readline_refuses_cut_outside_word() {
    // after `a&&b` is cut, the rest of the word is shorter than the positions it started with
    let parser = Bash::new();
    let err = parser.readline(&String::from("a&&b&&c")).err().unwrap();
    assert_eq!(err.code, ParserErrorCode::BadToken);
}

#[test]
fn bash_is_ligature() {
    let parser = Bash::new();
    for lig in ["&&", "||", "|", ";", "&", ">", ">>", "<", "<<"] {
        assert!(parser.is_ligature(&String::from(lig)));
    }
    assert!(!parser.is_ligature(&String::from("ls")));
    assert!(!parser.is_ligature(&String::from("&&&")));
}

#[test]
fn bash_cut_argv_to_delim_keeps_ligature() {
    let parser = Bash::new();
    let mut argv: VecDeque<String> = VecDeque::from(vec![String::from("a"), String::from("b"), String::from("||"), String::from("c")]);
    parser.cut_argv_to_delim(&mut argv);
    assert_eq!(argv, vec![String::from("||"), String::from("c")]);
}

#[test]
fn bash_dirs_error_message() {
    let parser = Bash::new();
    let mut input: VecDeque<String> = VecDeque::from(vec![String::from("-x")]);
    let err = parser.parse_dirs(&mut input).err().unwrap();
    assert_eq!(err.code, ParserErrorCode::TooManyArgs);
    assert_eq!(err.message, String::from("bash: dirs: -x: invalid option"));
}

#[test]
fn bash_cd_too_many_message() {
    let parser = Bash::new();
    let mut input: VecDeque<String> = VecDeque::from(vec![String::from("/a"), String::from("/b")]);
    let err = parser.parse_cd(&context(), &mut input).err().unwrap();
    assert_eq!(err.code, ParserErrorCode::TooManyArgs);
    assert_eq!(err.message, String::from("bash: cd: too many arguments"));
}

#[test]
fn bash_exit_out_of_range_is_two() {
    let parser = Bash::new();
    let mut input: VecDeque<String> = VecDeque::from(vec![String::from("256")]);
    assert!(parser.parse_exit(&mut input).unwrap() == ShellStatement::Exit(2));
}

#[test]
fn bash_parse_builds_pipelines_and_builtins() {
    let parser = Bash::new();
    let expr = parser.parse(&context(), &String::from("cd /tmp && echo foo | cat; exit 3")).unwrap();
    assert_eq!(expr.statements.len(), 3);
    assert!(expr.statements[0].0 == ShellStatement::Cd(String::from("/tmp")));
    assert_eq!(expr.statements[0].1, TaskRelation::And);
    match &expr.statements[1].0 {
        ShellStatement::Exec(task) => {
            assert_eq!(task.command, vec![String::from("echo"), String::from("foo")]);
            assert_eq!(task.relation, TaskRelation::Pipe);
            assert_eq!(task.next.as_ref().unwrap().command, vec![String::from("cat")]);
        },
        _ => panic!("expected a task"),
    }
    assert_eq!(expr.statements[1].1, TaskRelation::Unrelated);
    assert!(expr.statements[2].0 == ShellStatement::Exit(3));
}

#[test]
fn bash_parse_rejects_leading_ligature_and_redirection() {
    let parser = Bash::new();
    assert_eq!(parser.parse(&context(), &String::from("&& ls")).err().unwrap().code, ParserErrorCode::BadToken);
    assert_eq!(parser.parse(&context(), &String::from("ls > out")).err().unwrap().code, ParserErrorCode::BadToken);
    assert_eq!(parser.parse(&context(), &String::from("")).unwrap().statements.len(), 0);
}

#[test]
fn bash_readline_never_yields_empty_arguments() {
    let parser = Bash::new();
    let inputs = [
        "a && b", "&&", "a;;b", "echo \"\" x", "x | y || z", "a >> b << c", "\n\n;\n", "'a b' \"c d\"", "a\\ b",
    ];
    for input in inputs.iter() {
        if let Ok(argv) = parser.readline(&String::from(*input)) {
            assert!(argv.iter().all(|a| !a.is_empty()), "empty argument for {:?}", input);
        }
    }
}

#[test]
fn bash_state_escape_quote_laws() {
    //An escape covers one character
    let mut state = BashParserState::new();
    assert!(state.update_state('\\').is_none());
    assert!(state.is_escaped());
    assert!(state.update_state('"').is_none());
    assert!(state.empty());
    //An escaped backslash too
    assert!(state.update_state('\\').is_none());
    assert!(state.update_state('\\').is_none());
    assert!(state.empty());
    //A double quote closes what it opened
    assert!(state.update_state('"').is_none());
    assert!(state.is_quoted());
    //Inside it, other characters change nothing
    for ch in ['a', '\'', ')', '`', '$', '('] {
        assert!(state.update_state(ch).is_none());
        assert!(state.is_quoted());
    }
    assert!(state.update_state('"').is_none());
    assert!(state.empty());
}

#[test]
fn bash_readline_reads_plain_words_back() {
    let parser = Bash::new();
    let words: Vec<&str> = vec!["ls", "-l", "/tmp/x.txt", "$HOME", "a=b", "{1..3}", "ümlaut"];
    let argv: VecDeque<String> = parser.readline(&words.join(" ")).unwrap();
    assert_eq!(argv, words.iter().map(|w| w.to_string()).collect::<VecDeque<String>>());
    //Operators between words are read back as words of their own
    let words: Vec<&str> = vec!["cd", "/tmp/", "&&", "ls", "||", "echo", "x", "|", "wc", ";", "a", ">", "f", ">>", "g", "<", "h", "<<", "i", "&"];
    let argv: VecDeque<String> = parser.readline(&words.join(" ")).unwrap();
    assert_eq!(argv, words.iter().map(|w| w.to_string()).collect::<VecDeque<String>>());
    //No words, no arguments
    assert_eq!(parser.readline(&String::new()).unwrap().len(), 0);
}

#[test]
fn bash_readline_reads_a_quoted_group_as_one_argument() {
    let parser = Bash::new();
    let argv: VecDeque<String> = parser.readline(&String::from("\"ls -l /tmp/ $HOME\"")).unwrap();
    assert_eq!(argv, VecDeque::from(vec![String::from("ls -l /tmp/ $HOME")]));
    let argv: VecDeque<String> = parser.readline(&String::from("\"single\"")).unwrap();
    assert_eq!(argv, VecDeque::from(vec![String::from("single")]));
}

#[test]
fn bash_readline_separates_lines_with_semicolons() {
    let parser = Bash::new();
    let argv: VecDeque<String> = parser.readline(&String::from("cd /tmp/ && ls\necho a | wc\nexit")).unwrap();
    let expected: Vec<&str> = vec!["cd", "/tmp/", "&&", "ls", ";", "echo", "a", "|", "wc", ";", "exit"];
    assert_eq!(argv, expected.iter().map(|w| w.to_string()).collect::<VecDeque<String>>());
}
