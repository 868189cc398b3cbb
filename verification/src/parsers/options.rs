//! # Options
//!
//! Command line options of the builtins (`export -p`, `history -d 3`...), read by the
//! getopts crate. A builtin describes its options as `OptionSpec`s; getopts matches the
//! arguments against them and writes the help text.

use super::tokenizer::sv;
use getopts::{HasArg, Occur, Options};
use vstd::prelude::*;

verus! {

/// One option of a builtin: its short name (one character), its long name (empty for
/// none, else at least two characters), its help line, the hint shown for its value, and
/// whether it takes a value.
pub struct OptionSpec {
    pub short: String,
    pub long: String,
    pub desc: String,
    pub hint: String,
    pub has_value: bool,
}

/// An option as plain values: (short, long, description, hint, takes a value).
pub type OptionView = (Seq<char>, Seq<char>, Seq<char>, Seq<char>, bool);

/// What getopts reads of a successful match: for each option whether it was given and
/// the value it was given, then the free arguments.
pub type MatchesView = (Seq<bool>, Seq<Option<Seq<char>>>, Seq<Seq<char>>);

/// The options as plain values.
pub open spec fn option_views(specs: Seq<OptionSpec>) -> Seq<OptionView> {
    Seq::new(specs.len(), |i: int| (specs[i].short@, specs[i].long@, specs[i].desc@, specs[i].hint@, specs[i].has_value))
}

/// Names getopts accepts: a short name of exactly one ASCII character, and a long name
/// that is empty or has at least two characters.
pub open spec fn valid_options(options: Seq<OptionView>) -> bool {
    forall|i: int| 0 <= i < options.len() ==> {
        let o = #[trigger] options[i];
        &&& o.0.len() == 1
        &&& (o.0[0] as u32) < 128
        &&& (o.1.len() == 0 || o.1.len() >= 2)
    }
}

/// How getopts matches `args` against `options` (`Options::parse`, then `opt_present`,
/// `opt_str` for each option by its short name, and the free arguments), or the text of
/// its failure.
pub uninterp spec fn getopts_matches(options: Seq<OptionView>, args: Seq<Seq<char>>) -> Result<MatchesView, Seq<char>>;

/// The help text getopts writes for `options` under the title `brief` (`Options::usage`).
pub uninterp spec fn getopts_usage_text(brief: Seq<char>, options: Seq<OptionView>) -> Seq<char>;

/// A match as plain values.
pub open spec fn matches_view(m: Result<(Vec<bool>, Vec<Option<String>>, Vec<String>), String>) -> Result<MatchesView, Seq<char>> {
    match m {
        Ok(t) => Ok((t.0@, Seq::new(t.1@.len(), |i: int| match t.1@[i] {
            Some(s) => Some(s@),
            None => None,
        }), sv(t.2@))),
        Err(e) => Err(e@),
    }
}

/// Whether option `i` was given, in a successful match.
pub open spec fn given(m: MatchesView, i: int) -> bool {
    0 <= i < m.0.len() && m.0[i]
}

/// The value option `i` was given, in a successful match.
pub open spec fn value_of(m: MatchesView, i: int) -> Option<Seq<char>> {
    if 0 <= i < m.1.len() {
        m.1[i]
    } else {
        None
    }
}

/// Matches `args` against `specs` with getopts (`Options::opt` for each option, optional,
/// then `Options::parse`, then `Matches::opt_present` and `Matches::opt_str` by each short
/// name, and `Matches::free`). The contract claims only that the result is getopts' match
/// of these arguments (a function of them alone), with one entry per option; the failure
/// is the text of getopts' `Fail`. getopts panics on names other than those of
/// `valid_options`, which callers are held to.
#[verifier::external_body]
pub(crate) fn getopts_parse(specs: &Vec<OptionSpec>, args: &Vec<String>) -> (r: Result<(Vec<bool>, Vec<Option<String>>, Vec<String>), String>)
    requires
        valid_options(option_views(specs@)),
    ensures
        matches_view(r) == getopts_matches(option_views(specs@), sv(args@)),
        r matches Ok(t) ==> t.0@.len() == specs@.len() && t.1@.len() == specs@.len(),
{
    let mut options = Options::new();
    for s in specs.iter() {
        options.opt(&s.short, &s.long, &s.desc, &s.hint, if s.has_value { HasArg::Yes } else { HasArg::No }, Occur::Optional);
    }
    match options.parse(args) {
        Ok(m) => Ok((specs.iter().map(|s| m.opt_present(&s.short)).collect(), specs.iter().map(|s| m.opt_str(&s.short)).collect(), m.free)),
        Err(e) => Err(e.to_string()),
    }
}

/// The help text of `specs` under the title `brief` (`Options::opt` for each option,
/// then `Options::usage`). The contract claims only that it is getopts' text for these
/// arguments. getopts panics on names other than those of `valid_options`.
#[verifier::external_body]
pub(crate) fn getopts_usage(brief: &str, specs: &Vec<OptionSpec>) -> (r: String)
    requires
        valid_options(option_views(specs@)),
    ensures
        r@ == getopts_usage_text(brief@, option_views(specs@)),
{
    let mut options = Options::new();
    for s in specs.iter() {
        options.opt(&s.short, &s.long, &s.desc, &s.hint, if s.has_value { HasArg::Yes } else { HasArg::No }, Occur::Optional);
    }
    options.usage(brief)
}

/// An option description from literals.
pub fn option(short: &str, long: &str, desc: &str, hint: &str, has_value: bool) -> (o: OptionSpec)
    ensures
        o.short@ == short@,
        o.long@ == long@,
        o.desc@ == desc@,
        o.hint@ == hint@,
        o.has_value == has_value,
{
    OptionSpec {
        short: String::from_str(short),
        long: String::from_str(long),
        desc: String::from_str(desc),
        hint: String::from_str(hint),
        has_value,
    }
}

} // verus!
