//! # Session
//!
//! `ShellCore`: the session of a shell. It holds the working directories, the directory
//! stack, the history, the session storage, the aliases, the functions and a copy of the
//! process environment. Everything the session asks of the operating system goes through
//! a `ShellHost`, which the embedding program provides.

use crate::collections::StringMap;
use crate::streams::{new_streams, ShellStream, UserStream};
use crate::tasks::Task;
use crate::text::{
    chars_of, contains, contains_seq, is_valid_command_name, is_valid_var_name, owned, replace,
    replace_all, starts_with, string_from_range, valid_command_name, valid_var_name,
};
use crate::runner::{quick_code, runs_to};
use crate::runner::{ShellRunner, STEP_BUDGET};
use crate::text::{decimal_digits, occurs_at, u128_to_string};
use crate::{FileRedirectionType, ParseStatement, ParserError, ParserErrorCode, ShellError, ShellExpression, ShellState};
use std::collections::VecDeque;
use vstd::prelude::*;

verus! {

/// The most directories the directory stack holds plus one.
pub const DIRS_CAPACITY: usize = 255;

/// Why changing or listing a directory failed, as the operating system reports it.
#[derive(Copy, Clone, PartialEq, Eq, Structural, Debug)]
pub enum DirError {
    NotFound,
    PermissionDenied,
    NotADirectory,
    Other,
}

/// Why reading a file failed, as the operating system reports it.
#[derive(Copy, Clone, PartialEq, Eq, Structural, Debug)]
pub enum FileError {
    NotFound,
    PermissionDenied,
    Other,
}

/// The outcome of running a pipeline to its end: its exit code, what it wrote on stdout,
/// and whether the user interrupted it.
pub struct TaskRun {
    pub exit_code: u8,
    pub output: String,
    pub interrupted: bool,
}

/// The services the session needs from the operating system. The embedding program
/// implements them (process, file system and environment calls); nothing is stated of
/// what they return.
pub trait ShellHost {
    /// Makes `dir` the process working directory.
    fn change_dir(&self, dir: &String) -> Result<(), DirError>;

    /// The variables of the process environment.
    fn environment(&self) -> Vec<(String, String)>;

    /// Sets a variable of the process environment.
    fn set_env(&self, key: &String, value: &String);

    /// Removes a variable from the process environment.
    fn remove_env(&self, key: &String);

    /// Reads a whole file.
    fn read_file(&self, file: &String) -> Result<String, FileError>;

    /// The paths of the entries of a directory.
    fn list_dir(&self, dir: &String) -> Result<Vec<String>, DirError>;

    /// The paths matching a glob pattern, in the order the pattern matcher gives them;
    /// `None` when the pattern is invalid.
    fn glob(&self, pattern: &String) -> Option<Vec<String>>;

    /// A monotonic clock, in milliseconds.
    fn now_ms(&self) -> u64;

    /// Runs a pipeline to its end, writing `input` to it first, relaying its output to
    /// `stream` and the user's messages to it.
    fn run_task(&self, task: Task, input: Option<String>, stream: &ShellStream) -> TaskRun;

    /// Writes `content` to `file`, truncating or appending; the error carries a message.
    fn write_file(&self, file: &String, mode: FileRedirectionType, content: &String) -> Result<(), String>;
}

/// The user name (`whoami::username`); `None` when the system does not tell it.
/// It depends on the machine, so nothing is stated of it.
#[verifier::external_body]
fn system_user_name() -> Option<String> {
    match whoami::username() {
        Ok(name) => Some(name),
        Err(_) => None,
    }
}

/// The host name (`whoami::hostname`); `None` when the system does not tell it.
/// It depends on the machine, so nothing is stated of it.
#[verifier::external_body]
fn system_host_name() -> Option<String> {
    match whoami::hostname() {
        Ok(name) => Some(name),
        Err(_) => None,
    }
}

/// The user's home directory (`dirs::home_dir`), as text.
/// It depends on the machine and the environment, so nothing is stated of it.
#[verifier::external_body]
fn system_home_dir() -> Option<String> {
    match dirs::home_dir() {
        Some(path) => Some(path.to_string_lossy().into_owned()),
        None => None,
    }
}

/// The home directory a session takes from the system's answer: that directory, or `/`
/// when the system knows none.
pub open spec fn home_or_root_spec(lookup: Option<String>) -> Seq<char> {
    match lookup {
        Some(h) => h@,
        None => "/"@,
    }
}

/// The home directory a session takes from the system's answer: that directory, or `/`
/// when the system knows none.
pub fn home_or_root(lookup: Option<String>) -> (r: String)
    ensures
        r@ == home_or_root_spec(lookup),
{
    match lookup {
        Some(h) => h,
        None => owned("/"),
    }
}

/// ## ShellCore
///
/// The session of a shell. Its tables keep an invariant (`wf`) that the methods rely on:
/// change the fields directly only in ways that keep it.
pub struct ShellCore {
    pub state: ShellState,
    pub exit_code: u8,
    /// Duration of the last executed command, in milliseconds.
    pub execution_time: u64,
    pub pid: Option<u32>,
    pub user: String,
    pub hostname: String,
    pub wrk_dir: String,
    pub home_dir: String,
    pub prev_dir: String,
    pub execution_started: u64,
    pub storage: StringMap<String>,
    pub alias: StringMap<String>,
    pub functions: StringMap<ShellExpression>,
    pub environ: StringMap<String>,
    pub dirs: VecDeque<String>,
    pub history: VecDeque<String>,
    pub history_size: usize,
    pub parser: Box<dyn ParseStatement>,
    pub host: Box<dyn ShellHost>,
    pub buf_in: String,
    pub sstream: ShellStream,
}

/// The character sequences of a sequence of strings.
pub open spec fn texts(v: Seq<String>) -> Seq<Seq<char>> {
    Seq::new(v.len(), |i: int| v[i]@)
}

/// The history after `entry` is pushed onto `history` (newest first) with room for `size`
/// entries: the oldest entry leaves when the history is full.
pub open spec fn history_after_push(history: Seq<Seq<char>>, size: nat, entry: Seq<char>) -> Seq<Seq<char>> {
    let kept = if history.len() + 1 > size && history.len() > 0 { history.drop_last() } else { history };
    seq![entry] + kept
}

/// The directory stack after `dir` is pushed on its front: when it holds
/// `DIRS_CAPACITY - 1` directories, its front one is replaced.
pub open spec fn dirs_after_push(dirs: Seq<Seq<char>>, dir: Seq<char>) -> Seq<Seq<char>> {
    let kept = if dirs.len() + 1 == DIRS_CAPACITY { dirs.drop_first() } else { dirs };
    seq![dir] + kept
}

/// The entries of `history` (newest first) that contain `needle`, in order.
pub open spec fn matching(history: Seq<Seq<char>>, needle: Seq<char>) -> Seq<Seq<char>>
    decreases history.len(),
{
    if history.len() == 0 {
        Seq::empty()
    } else {
        let rest = matching(history.drop_last(), needle);
        if contains_seq(history.last(), needle) {
            rest.push(history.last())
        } else {
            rest
        }
    }
}

/// What a reverse search collects from the first `n` entries of `history`: the entries that
/// contain `needle`, and whether the search stopped. With a maximum, the search stops as
/// soon as, after an entry, the number of collected entries equals the maximum.
pub open spec fn search_prefix(history: Seq<Seq<char>>, needle: Seq<char>, max: Option<usize>, n: nat) -> (Seq<Seq<char>>, bool)
    decreases n,
{
    if n == 0 {
        (Seq::empty(), false)
    } else {
        let (found, stopped) = search_prefix(history, needle, max, (n - 1) as nat);
        if stopped {
            (found, true)
        } else {
            let entry = history[n - 1];
            let found2 = if contains_seq(entry, needle) { found.push(entry) } else { found };
            let stop = match max {
                Some(m) => found2.len() == m,
                None => false,
            };
            (found2, stop)
        }
    }
}

/// The result of a reverse search: `None` when nothing was collected.
pub open spec fn reverse_search_result(history: Seq<Seq<char>>, needle: Seq<char>, max: Option<usize>) -> Option<Seq<Seq<char>>> {
    let found = search_prefix(history, needle, max, history.len()).0;
    if found.len() == 0 {
        None
    } else {
        Some(found)
    }
}

/// `path` with a leading `~` replaced by `home`.
pub open spec fn resolved_path(home: Seq<char>, path: Seq<char>) -> Seq<char> {
    if path.len() > 0 && path[0] == '~' {
        home + path.drop_first()
    } else {
        path
    }
}

/// The working directory as a prompt shows it: when it starts with the home directory,
/// every occurrence of the home directory becomes `~`.
pub open spec fn pretty_wrkdir(wrkdir: Seq<char>, home: Seq<char>) -> Seq<char> {
    if home.len() <= wrkdir.len() && wrkdir.subrange(0, home.len() as int) == home {
        replace_all(wrkdir, home, seq!['~'])
    } else {
        wrkdir
    }
}

/// Replacing a pattern that does not occur leaves a text as it is.
proof fn lemma_replace_absent(s: Seq<char>, pat: Seq<char>, rep: Seq<char>)
    requires
        pat.len() > 0,
        !contains_seq(s, pat),
    ensures
        replace_all(s, pat, rep) == s,
    decreases s.len(),
{
    if s.len() >= pat.len() {
        assert(!occurs_at(s, pat, 0));
        let t = s.drop_first();
        assert(!contains_seq(t, pat)) by {
            if contains_seq(t, pat) {
                let i = choose|i: int| occurs_at(t, pat, i);
                assert(s.subrange(i + 1, i + 1 + pat.len()) =~= t.subrange(i, i + pat.len()));
                assert(occurs_at(s, pat, i + 1));
            }
        }
        lemma_replace_absent(t, pat, rep);
        assert(seq![s[0]] + t =~= s);
    }
}

/// The prompt keeps the path under the home directory: a working directory made of the
/// home directory and then a path in which the home directory does not occur is shown as
/// `~` followed by that path, one character for the whole home directory.
pub proof fn law_pretty_wrkdir_keeps_path(home: Seq<char>, path: Seq<char>)
    requires
        home.len() > 0,
        !contains_seq(path, home),
    ensures
        pretty_wrkdir(home + path, home) == seq!['~'] + path,
        pretty_wrkdir(home + path, home).len() == path.len() + 1,
{
    let w = home + path;
    assert(w.subrange(0, home.len() as int) =~= home);
    assert(w.subrange(home.len() as int, w.len() as int) =~= path);
    lemma_replace_absent(path, home, seq!['~']);
}

/// A working directory that does not start with the home directory is shown as it is.
pub proof fn law_pretty_wrkdir_outside_home(home: Seq<char>, wrkdir: Seq<char>)
    requires
        !(home.len() <= wrkdir.len() && wrkdir.subrange(0, home.len() as int) == home),
    ensures
        pretty_wrkdir(wrkdir, home) == wrkdir,
{
}

/// The error a failed directory change of `dir` reports.
pub open spec fn dir_error(dir: String, e: DirError) -> ShellError {
    match e {
        DirError::NotFound => ShellError::NoSuchFileOrDirectory(dir),
        DirError::PermissionDenied => ShellError::PermissionDenied(dir),
        DirError::NotADirectory => ShellError::NotADirectory(dir),
        DirError::Other => ShellError::Other,
    }
}

/// The values of a table of strings, as character sequences.
pub open spec fn text_map(m: Map<Seq<char>, String>) -> Map<Seq<char>, Seq<char>> {
    m.map_values(|v: String| v@)
}

impl ShellCore {
    /// The tables have distinct keys, the history holds at most `history_size` entries
    /// (at least one when a push happened with no room), and the directory stack stays
    /// below its capacity.
    pub closed spec fn wf(&self) -> bool {
        &&& self.storage.wf()
        &&& self.alias.wf()
        &&& self.functions.wf()
        &&& self.environ.wf()
        &&& (self.history@.len() <= self.history_size || self.history@.len() <= 1)
        &&& self.dirs@.len() < DIRS_CAPACITY
    }

    /// What a well-formed session keeps bounded: the history holds at most its capacity
    /// (or a single entry, when the capacity is 0), and the directory stack stays below
    /// `DIRS_CAPACITY`.
    pub proof fn lemma_wf_bounds(&self)
        requires
            self.wf(),
        ensures
            self.history_view().len() <= self.history_capacity() || self.history_view().len() <= 1,
            self.dirs_view().len() < DIRS_CAPACITY,
    {
    }

    /// The working directory.
    pub open spec fn wrkdir(&self) -> Seq<char> {
        self.wrk_dir@
    }

    /// The home directory.
    pub open spec fn home(&self) -> Seq<char> {
        self.home_dir@
    }

    /// The previous working directory.
    pub open spec fn prev(&self) -> Seq<char> {
        self.prev_dir@
    }

    /// The history, newest first.
    pub open spec fn history_view(&self) -> Seq<Seq<char>> {
        texts(self.history@)
    }

    /// The number of entries the history keeps.
    pub open spec fn history_capacity(&self) -> nat {
        self.history_size as nat
    }

    /// The directory stack, most recent first.
    pub open spec fn dirs_view(&self) -> Seq<Seq<char>> {
        texts(self.dirs@)
    }

    /// The session storage.
    pub open spec fn storage_view(&self) -> Map<Seq<char>, Seq<char>> {
        text_map(self.storage.view())
    }

    /// The aliases.
    pub open spec fn alias_view(&self) -> Map<Seq<char>, Seq<char>> {
        text_map(self.alias.view())
    }

    /// The functions.
    pub open spec fn functions_view(&self) -> Map<Seq<char>, ShellExpression> {
        self.functions.view()
    }

    /// The session's copy of the process environment.
    pub open spec fn environ_view(&self) -> Map<Seq<char>, Seq<char>> {
        text_map(self.environ.view())
    }

    /// The input buffered while an expression is incomplete.
    pub open spec fn buffer(&self) -> Seq<char> {
        self.buf_in@
    }

    /// The value a name has: the storage's, else the environment's.
    pub open spec fn value_of(&self, key: Seq<char>) -> Option<Seq<char>> {
        if self.storage_view().dom().contains(key) {
            Some(self.storage_view()[key])
        } else if self.environ_view().dom().contains(key) {
            Some(self.environ_view()[key])
        } else {
            None
        }
    }

    /// ### new
    ///
    /// A new session, and the user stream to talk to it. Without a working directory the
    /// home directory is used; without a home directory, `/`. The directory stack starts
    /// with the home directory.
    pub fn new(wrkdir: Option<String>, history_size: usize, parser: Box<dyn ParseStatement>, host: Box<dyn ShellHost>) -> (r: (ShellCore, UserStream))
        ensures
            r.0.wf(),
            r.0.state == ShellState::Idle,
            r.0.exit_code == 0,
            r.0.execution_time == 0,
            r.0.pid is None,
            r.0.wrkdir() == (match wrkdir {
                Some(d) => d@,
                None => r.0.home(),
            }),
            r.0.prev() == r.0.home(),
            r.0.dirs_view() == seq![r.0.home()],
            r.0.history_view() == Seq::<Seq<char>>::empty(),
            r.0.history_capacity() == history_size,
            r.0.storage_view() == Map::<Seq<char>, Seq<char>>::empty(),
            r.0.alias_view() == Map::<Seq<char>, Seq<char>>::empty(),
            r.0.functions_view() == Map::<Seq<char>, ShellExpression>::empty(),
            r.0.buffer() == Seq::<char>::empty(),
            exists|lookup: Option<String>| r.0.home() == home_or_root_spec(lookup),
    {
        let hostname = match system_host_name() {
            Some(h) => h,
            None => String::new(),
        };
        let user = match system_user_name() {
            Some(u) => u,
            None => String::new(),
        };
        let home = home_or_root(system_home_dir());
        let wrk = match wrkdir {
            Some(d) => d,
            None => home.clone(),
        };
        let _ = host.change_dir(&wrk);
        let mut environ: StringMap<String> = StringMap::new();
        let vars = host.environment();
        for i in 0..vars.len()
            invariant
                environ.wf(),
        {
            environ.insert(vars[i].0.clone(), vars[i].1.clone());
        }
        let (sstream, ustream) = new_streams();
        let mut dirs: VecDeque<String> = VecDeque::new();
        dirs.push_front(home.clone());
        let core = ShellCore {
            state: ShellState::Idle,
            exit_code: 0,
            execution_time: 0,
            pid: None,
            user,
            hostname,
            wrk_dir: wrk,
            home_dir: home.clone(),
            prev_dir: home,
            execution_started: 0,
            storage: StringMap::new(),
            alias: StringMap::new(),
            functions: StringMap::new(),
            environ,
            dirs,
            history: VecDeque::new(),
            history_size,
            parser,
            host,
            buf_in: String::new(),
            sstream,
        };
        assert(core.dirs_view() =~= seq![core.home()]);
        assert(core.history_view() =~= Seq::<Seq<char>>::empty());
        assert(core.storage_view() =~= Map::<Seq<char>, Seq<char>>::empty());
        assert(core.alias_view() =~= Map::<Seq<char>, Seq<char>>::empty());
        (core, ustream)
    }
}

/// A copy of a queue of strings.
fn copy_strings(v: &VecDeque<String>) -> (r: VecDeque<String>)
    ensures
        r@ == v@,
{
    let mut r: VecDeque<String> = VecDeque::new();
    let n = v.len();
    for i in 0..n
        invariant
            n == v@.len(),
            r@ == v@.subrange(0, i as int),
    {
        r.push_back(v[i].clone());
        assert(r@ =~= v@.subrange(0, i + 1));
    }
    assert(r@ =~= v@);
    r
}

/// `path` with a leading `~` replaced by `home`.
pub fn resolve_home_path(home: &String, path: String) -> (r: String)
    ensures
        r@ == resolved_path(home@, path@),
{
    proof {
        reveal_strlit("~");
        assert("~"@ =~= seq!['~']);
    }
    if starts_with(path.as_str(), "~") {
        assert(path@.subrange(0, 1)[0] == path@[0]);
        let v = chars_of(path.as_str());
        let rest = string_from_range(&v, 1, v.len());
        let mut r = home.clone();
        r.append(rest.as_str());
        assert(rest@ =~= path@.drop_first());
        assert(r@ =~= resolved_path(home@, path@));
        r
    } else {
        assert(!(path@.len() > 0 && path@[0] == '~')) by {
            if path@.len() > 0 && path@[0] == '~' {
                assert(path@.subrange(0, 1) =~= "~"@);
            }
        }
        path
    }
}

impl ShellCore {
    /// What a parser may read of this session.
    pub fn parse_context(&self) -> (c: crate::ParseContext)
        requires
            self.wf(),
        ensures
            c.home_dir@ == self.home(),
            c.prev_dir@ == self.prev(),
            c.environ@.len() == self.environ.key_seq().len(),
            forall|i: int| 0 <= i < c.environ@.len() ==> #[trigger] c.environ@[i].0@ == self.environ.key_seq()[i],
            forall|i: int| 0 <= i < c.environ@.len() ==> self.environ_view()[#[trigger] c.environ@[i].0@] == c.environ@[i].1@,
    {
        let mut environ: Vec<(String, String)> = Vec::new();
        let n = self.environ.len();
        for i in 0..n
            invariant
                self.wf(),
                n == self.environ.key_seq().len(),
                environ@.len() == i,
                forall|j: int| 0 <= j < i ==> #[trigger] environ@[j].0@ == self.environ.key_seq()[j],
                forall|j: int| 0 <= j < i ==> self.environ_view()[#[trigger] environ@[j].0@] == environ@[j].1@,
        {
            let k = self.environ.key_at(i).clone();
            let v = self.environ.value_at(i).clone();
            environ.push((k, v));
        }
        crate::ParseContext { home_dir: self.home_dir.clone(), prev_dir: self.prev_dir.clone(), environ }
    }

    //@! Alias

    /// ### alias_get_all
    ///
    /// Every alias, as (name, command) pairs in the order they were first set.
    pub fn alias_get_all(&self) -> (r: Vec<(String, String)>)
        requires
            self.wf(),
        ensures
            r@.len() == self.alias.key_seq().len(),
            forall|i: int| 0 <= i < r@.len() ==> #[trigger] r@[i].0@ == self.alias.key_seq()[i],
            forall|i: int| 0 <= i < r@.len() ==> self.alias_view()[#[trigger] r@[i].0@] == r@[i].1@,
    {
        let mut r: Vec<(String, String)> = Vec::new();
        let n = self.alias.len();
        for i in 0..n
            invariant
                self.wf(),
                n == self.alias.key_seq().len(),
                r@.len() == i,
                forall|j: int| 0 <= j < i ==> #[trigger] r@[j].0@ == self.alias.key_seq()[j],
                forall|j: int| 0 <= j < i ==> self.alias_view()[#[trigger] r@[j].0@] == r@[j].1@,
        {
            let k = self.alias.key_at(i).clone();
            let v = self.alias.value_at(i).clone();
            r.push((k, v));
        }
        r
    }

    /// ### alias_get
    ///
    /// The command of an alias.
    pub fn alias_get(&self, alias: &String) -> (r: Option<String>)
        requires
            self.wf(),
        ensures
            match r {
                Some(c) => self.alias_view().dom().contains(alias@) && c@ == self.alias_view()[alias@],
                None => !self.alias_view().dom().contains(alias@),
            },
    {
        match self.alias.get(alias.as_str()) {
            Some(c) => Some(c.clone()),
            None => None,
        }
    }

    /// ### alias_set
    ///
    /// Sets an alias; `false`, and nothing set, when `alias` cannot name an alias.
    pub fn alias_set(&mut self, alias: String, command: String) -> (r: bool)
        requires
            old(self).wf(),
        ensures
            final(self).wf(),
            r == valid_command_name(alias@),
            r ==> final(self).alias_view() == old(self).alias_view().insert(alias@, command@),
            !r ==> final(self).alias_view() == old(self).alias_view(),
            final(self).storage_view() == old(self).storage_view(),
            final(self).functions_view() == old(self).functions_view(),
            final(self).environ_view() == old(self).environ_view(),
            final(self).dirs_view() == old(self).dirs_view(),
            final(self).history_view() == old(self).history_view(),
            final(self).wrkdir() == old(self).wrkdir(),
    {
        if !is_valid_command_name(alias.as_str()) {
            return false;
        }
        let ghost k = alias@;
        let ghost v = command@;
        self.alias.insert(alias, command);
        assert(self.alias_view() =~= old(self).alias_view().insert(k, v));
        true
    }

    /// ### unalias
    ///
    /// Removes an alias, returning its command.
    pub fn unalias(&mut self, alias: &String) -> (r: Option<String>)
        requires
            old(self).wf(),
        ensures
            final(self).wf(),
            final(self).alias_view() == old(self).alias_view().remove(alias@),
            match r {
                Some(c) => old(self).alias_view().dom().contains(alias@) && c@ == old(self).alias_view()[alias@],
                None => !old(self).alias_view().dom().contains(alias@),
            },
            final(self).storage_view() == old(self).storage_view(),
            final(self).environ_view() == old(self).environ_view(),
            final(self).dirs_view() == old(self).dirs_view(),
    {
        let r = self.alias.remove(alias.as_str());
        assert(self.alias_view() =~= old(self).alias_view().remove(alias@));
        r
    }

    //@! Directories

    /// ### change_directory
    ///
    /// Changes the working directory; the previous one is kept as previous directory.
    /// Whether the change succeeds is the operating system's answer.
    pub fn change_directory(&mut self, directory: String) -> (r: Result<(), ShellError>)
        requires
            old(self).wf(),
        ensures
            final(self).wf(),
            r is Ok ==> final(self).wrkdir() == directory@ && final(self).prev() == old(self).wrkdir(),
            r is Err ==> final(self).wrkdir() == old(self).wrkdir() && final(self).prev() == old(self).prev(),
            r matches Err(e) ==> exists|d: DirError| e == dir_error(directory, d),
            final(self).dirs_view() == old(self).dirs_view(),
            final(self).storage_view() == old(self).storage_view(),
            final(self).alias_view() == old(self).alias_view(),
    {
        let outcome = self.host.change_dir(&directory);
        self.apply_directory_change(directory, outcome)
    }

    /// What a directory change does once the operating system answered `outcome`.
    pub fn apply_directory_change(&mut self, directory: String, outcome: Result<(), DirError>) -> (r: Result<(), ShellError>)
        requires
            old(self).wf(),
        ensures
            final(self).wf(),
            match outcome {
                Ok(()) => r is Ok && final(self).wrkdir() == directory@ && final(self).prev() == old(self).wrkdir(),
                Err(e) => r == Err::<(), ShellError>(dir_error(directory, e)) && final(self).wrkdir() == old(self).wrkdir()
                    && final(self).prev() == old(self).prev(),
            },
            final(self).dirs_view() == old(self).dirs_view(),
            final(self).storage_view() == old(self).storage_view(),
            final(self).alias_view() == old(self).alias_view(),
    {
        match outcome {
            Ok(()) => {
                let mut current = directory;
                std::mem::swap(&mut current, &mut self.wrk_dir);
                self.prev_dir = current;
                Ok(())
            },
            Err(e) => Err(match e {
                DirError::NotFound => ShellError::NoSuchFileOrDirectory(directory),
                DirError::PermissionDenied => ShellError::PermissionDenied(directory),
                DirError::NotADirectory => ShellError::NotADirectory(directory),
                DirError::Other => ShellError::Other,
            }),
        }
    }

    /// ### dirs
    ///
    /// The directory stack, most recent first.
    pub fn dirs(&self) -> (r: VecDeque<String>)
        ensures
            texts(r@) == self.dirs_view(),
    {
        copy_strings(&self.dirs)
    }

    /// ### popd_back
    ///
    /// Removes the oldest directory of the stack.
    pub fn popd_back(&mut self) -> (r: Option<String>)
        requires
            old(self).wf(),
        ensures
            final(self).wf(),
            match r {
                Some(d) => old(self).dirs_view().len() > 0 && d@ == old(self).dirs_view().last()
                    && final(self).dirs_view() == old(self).dirs_view().drop_last(),
                None => old(self).dirs_view().len() == 0 && final(self).dirs_view() == old(self).dirs_view(),
            },
            final(self).wrkdir() == old(self).wrkdir(),
            final(self).storage_view() == old(self).storage_view(),
    {
        let r = self.dirs.pop_back();
        assert(self.dirs_view() =~= (if r is Some { old(self).dirs_view().drop_last() } else { old(self).dirs_view() }));
        r
    }

    /// ### popd_front
    ///
    /// Removes the most recent directory of the stack.
    pub fn popd_front(&mut self) -> (r: Option<String>)
        requires
            old(self).wf(),
        ensures
            final(self).wf(),
            match r {
                Some(d) => old(self).dirs_view().len() > 0 && d@ == old(self).dirs_view()[0]
                    && final(self).dirs_view() == old(self).dirs_view().drop_first(),
                None => old(self).dirs_view().len() == 0 && final(self).dirs_view() == old(self).dirs_view(),
            },
            final(self).wrkdir() == old(self).wrkdir(),
            final(self).storage_view() == old(self).storage_view(),
    {
        let r = self.dirs.pop_front();
        assert(self.dirs_view() =~= (if r is Some { old(self).dirs_view().drop_first() } else { old(self).dirs_view() }));
        r
    }

    /// ### pushd
    ///
    /// Pushes a directory on the front of the stack; when the stack is full, its front
    /// directory is replaced.
    pub fn pushd(&mut self, dir: String)
        requires
            old(self).wf(),
        ensures
            final(self).wf(),
            final(self).dirs_view() == dirs_after_push(old(self).dirs_view(), dir@),
            final(self).wrkdir() == old(self).wrkdir(),
            final(self).storage_view() == old(self).storage_view(),
            final(self).alias_view() == old(self).alias_view(),
    {
        if self.dirs.len() + 1 == DIRS_CAPACITY {
            let _ = self.dirs.pop_front();
        }
        self.dirs.push_front(dir);
        assert(self.dirs_view() =~= dirs_after_push(old(self).dirs_view(), dir@));
    }

    //@! Exit

    /// ### exit
    ///
    /// Terminates the session: every table, directory and buffer is emptied.
    pub fn exit(&mut self)
        requires
            old(self).wf(),
        ensures
            final(self).wf(),
            final(self).state == ShellState::Terminated,
            final(self).exit_code == 0,
            final(self).execution_time == 0,
            final(self).pid is None,
            final(self).user@ == Seq::<char>::empty(),
            final(self).hostname@ == Seq::<char>::empty(),
            final(self).wrkdir() == Seq::<char>::empty(),
            final(self).home() == Seq::<char>::empty(),
            final(self).prev() == Seq::<char>::empty(),
            final(self).storage_view() == Map::<Seq<char>, Seq<char>>::empty(),
            final(self).alias_view() == Map::<Seq<char>, Seq<char>>::empty(),
            final(self).functions_view() == Map::<Seq<char>, ShellExpression>::empty(),
            final(self).dirs_view() == Seq::<Seq<char>>::empty(),
            final(self).history_view() == Seq::<Seq<char>>::empty(),
            final(self).buffer() == Seq::<char>::empty(),
            final(self).history_capacity() == old(self).history_capacity(),
    {
        self.state = ShellState::Terminated;
        self.exit_code = 0;
        self.execution_time = 0;
        self.pid = None;
        self.user = String::new();
        self.wrk_dir = String::new();
        self.home_dir = String::new();
        self.prev_dir = String::new();
        self.hostname = String::new();
        self.storage.clear();
        self.alias.clear();
        self.functions.clear();
        self.dirs.clear();
        self.history.clear();
        self.buf_in = String::new();
        assert(self.storage_view() =~= Map::<Seq<char>, Seq<char>>::empty());
        assert(self.alias_view() =~= Map::<Seq<char>, Seq<char>>::empty());
        assert(self.dirs_view() =~= Seq::<Seq<char>>::empty());
        assert(self.history_view() =~= Seq::<Seq<char>>::empty());
    }

    //@! Files

    /// ### get_files
    ///
    /// The entries of the working directory.
    pub fn get_files(&self) -> (r: Result<Vec<String>, ShellError>)
        ensures
            r is Err ==> exists|e: DirError| r == Err::<Vec<String>, ShellError>(dir_error(self.wrk_dir, e)),
    {
        self.get_files_in(self.wrk_dir.clone())
    }

    /// ### get_files_in
    ///
    /// The entries of `path`; a failure is reported as the error for `path`.
    pub fn get_files_in(&self, path: String) -> (r: Result<Vec<String>, ShellError>)
        ensures
            r is Err ==> exists|e: DirError| r == Err::<Vec<String>, ShellError>(dir_error(path, e)),
    {
        match self.host.list_dir(&path) {
            Ok(files) => Ok(files),
            Err(e) => {
                let ghost g = e;
                let err = match e {
                    DirError::NotFound => ShellError::NoSuchFileOrDirectory(path),
                    DirError::PermissionDenied => ShellError::PermissionDenied(path),
                    DirError::NotADirectory => ShellError::NotADirectory(path),
                    DirError::Other => ShellError::Other,
                };
                assert(err == dir_error(path, g));
                Err(err)
            },
        }
    }

    //@! Functions

    /// ### function_get
    ///
    /// A copy of a function's expression.
    pub fn function_get(&self, name: &String) -> (r: Option<ShellExpression>)
        requires
            self.wf(),
        ensures
            match r {
                Some(f) => self.functions_view().dom().contains(name@) && f.model() == self.functions_view()[name@].model(),
                None => !self.functions_view().dom().contains(name@),
            },
    {
        match self.functions.get(name.as_str()) {
            Some(f) => Some(f.duplicate()),
            None => None,
        }
    }

    /// ### function_set
    ///
    /// Defines a function; `false`, and nothing defined, when `name` cannot name a function.
    pub fn function_set(&mut self, name: String, expression: ShellExpression) -> (r: bool)
        requires
            old(self).wf(),
        ensures
            final(self).wf(),
            r == valid_command_name(name@),
            r ==> final(self).functions_view() == old(self).functions_view().insert(name@, expression),
            !r ==> final(self).functions_view() == old(self).functions_view(),
            final(self).storage_view() == old(self).storage_view(),
            final(self).alias_view() == old(self).alias_view(),
            final(self).environ_view() == old(self).environ_view(),
            final(self).dirs_view() == old(self).dirs_view(),
            final(self).wrkdir() == old(self).wrkdir(),
    {
        if !is_valid_command_name(name.as_str()) {
            return false;
        }
        self.functions.insert(name, expression);
        true
    }

    //@! Getters

    /// ### get_home
    pub fn get_home(&self) -> (r: String)
        ensures
            r@ == self.home(),
    {
        self.home_dir.clone()
    }

    /// ### get_prev_dir
    pub fn get_prev_dir(&self) -> (r: String)
        ensures
            r@ == self.prev(),
    {
        self.prev_dir.clone()
    }

    /// ### get_wrkdir
    pub fn get_wrkdir(&self) -> (r: String)
        ensures
            r@ == self.wrkdir(),
    {
        self.wrk_dir.clone()
    }

    /// ### get_wrkdir_pretty
    ///
    /// The working directory for a prompt, with the home directory shown as `~`.
    pub fn get_wrkdir_pretty(&self) -> (r: String)
        ensures
            r@ == pretty_wrkdir(self.wrkdir(), self.home()),
            self.home().len() > 0 && self.home().len() <= self.wrkdir().len()
                && self.wrkdir().subrange(0, self.home().len() as int) == self.home()
                && !contains_seq(self.wrkdir().skip(self.home().len() as int), self.home())
                ==> r@ == seq!['~'] + self.wrkdir().skip(self.home().len() as int),
    {
        proof {
            let h = self.home();
            let w = self.wrkdir();
            if h.len() > 0 && h.len() <= w.len() && w.subrange(0, h.len() as int) == h {
                assert(w =~= h + w.skip(h.len() as int));
                if !contains_seq(w.skip(h.len() as int), h) {
                    law_pretty_wrkdir_keeps_path(h, w.skip(h.len() as int));
                }
            }
        }
        if starts_with(self.wrk_dir.as_str(), self.home_dir.as_str()) {
            proof {
                reveal_strlit("~");
                assert("~"@ =~= seq!['~']);
            }
            replace(self.wrk_dir.as_str(), self.home_dir.as_str(), "~")
        } else {
            self.wrk_dir.clone()
        }
    }
}

/// The matches of a prefix of the history are a prefix of the matches of the history.
proof fn lemma_matching_prefix(h: Seq<Seq<char>>, needle: Seq<char>, k: int)
    requires
        0 <= k <= h.len(),
    ensures
        matching(h.subrange(0, k), needle).len() <= matching(h, needle).len(),
        matching(h.subrange(0, k), needle) == matching(h, needle).subrange(0, matching(h.subrange(0, k), needle).len() as int),
    decreases h.len() - k,
{
    if k == h.len() {
        assert(h.subrange(0, k) =~= h);
        assert(matching(h, needle).subrange(0, matching(h, needle).len() as int) =~= matching(h, needle));
    } else {
        lemma_matching_prefix(h, needle, k + 1);
        let p = h.subrange(0, k + 1);
        assert(p.drop_last() =~= h.subrange(0, k));
        let a = matching(h.subrange(0, k), needle);
        let b = matching(p, needle);
        let c = matching(h, needle);
        assert(b == c.subrange(0, b.len() as int));
        if contains_seq(p.last(), needle) {
            assert(b == a.push(p.last()));
            assert(a =~= b.subrange(0, a.len() as int));
            assert(a =~= c.subrange(0, a.len() as int));
        } else {
            assert(b == a);
        }
    }
}

/// Once a reverse search has stopped, looking at more entries changes nothing.
proof fn lemma_search_stopped(h: Seq<Seq<char>>, needle: Seq<char>, max: Option<usize>, n: nat, m: nat)
    requires
        n <= m,
        search_prefix(h, needle, max, n).1,
    ensures
        search_prefix(h, needle, max, m) == search_prefix(h, needle, max, n),
    decreases m - n,
{
    if n < m {
        lemma_search_stopped(h, needle, max, n, (m - 1) as nat);
    }
}

impl ShellCore {
    //@! History

    /// ### history_at
    ///
    /// The history entry at `index` (0 is the newest).
    pub fn history_at(&self, index: usize) -> (r: Option<String>)
        ensures
            match r {
                Some(e) => index < self.history_view().len() && e@ == self.history_view()[index as int],
                None => index >= self.history_view().len(),
            },
    {
        if index < self.history.len() {
            Some(self.history[index].clone())
        } else {
            None
        }
    }

    /// ### history_get
    ///
    /// A copy of the history, newest first.
    pub fn history_get(&self) -> (r: VecDeque<String>)
        ensures
            texts(r@) == self.history_view(),
    {
        copy_strings(&self.history)
    }

    /// ### history_load
    ///
    /// Replaces the history with the first entries of `history` (at most the history
    /// size), in reverse order: the first entry becomes the oldest one.
    pub fn history_load(&mut self, history: VecDeque<String>)
        requires
            old(self).wf(),
        ensures
            final(self).wf(),
            final(self).history_capacity() == old(self).history_capacity(),
            final(self).history_view().len() == (if history@.len() < old(self).history_capacity() { history@.len() } else { old(self).history_capacity() }),
            forall|j: int| 0 <= j < final(self).history_view().len() ==>
                #[trigger] final(self).history_view()[j] == history@[final(self).history_view().len() - 1 - j]@,
            final(self).storage_view() == old(self).storage_view(),
            final(self).dirs_view() == old(self).dirs_view(),
    {
        self.history.clear();
        let n = history.len();
        let mut i: usize = 0;
        while i < n && i < self.history_size
            invariant
                self.wf(),
                n == history@.len(),
                i <= n,
                i <= self.history_size,
                self.history_size == old(self).history_size,
                self.history@.len() == i,
                forall|j: int| 0 <= j < i ==> #[trigger] self.history@[j]@ == history@[i - 1 - j]@,
                self.storage_view() == old(self).storage_view(),
                self.dirs_view() == old(self).dirs_view(),
            decreases n - i,
        {
            self.history.push_front(history[i].clone());
            i = i + 1;
        }
    }

    /// ### history_push
    ///
    /// Pushes an entry on the front of the history; when the history is full, its oldest
    /// entry leaves.
    pub fn history_push(&mut self, expression: String)
        requires
            old(self).wf(),
        ensures
            final(self).wf(),
            final(self).history_view() == history_after_push(old(self).history_view(), old(self).history_capacity(), expression@),
            final(self).history_capacity() == old(self).history_capacity(),
            final(self).storage_view() == old(self).storage_view(),
            final(self).alias_view() == old(self).alias_view(),
            final(self).functions_view() == old(self).functions_view(),
            final(self).environ_view() == old(self).environ_view(),
            final(self).dirs_view() == old(self).dirs_view(),
            final(self).wrkdir() == old(self).wrkdir(),
            final(self).buffer() == old(self).buffer(),
            final(self).state == old(self).state,
    {
        if self.history.len() >= self.history_size {
            let _ = self.history.pop_back();
        }
        self.history.push_front(expression);
        assert(self.history_view() =~= history_after_push(old(self).history_view(), old(self).history_capacity(), expression@));
    }

    /// Empties the history.
    pub fn history_clear(&mut self)
        requires
            old(self).wf(),
        ensures
            final(self).wf(),
            final(self).history_view() == Seq::<Seq<char>>::empty(),
            final(self).history_capacity() == old(self).history_capacity(),
            final(self).storage_view() == old(self).storage_view(),
            final(self).state == old(self).state,
            final(self).buffer() == old(self).buffer(),
    {
        self.history.clear();
        assert(self.history_view() =~= Seq::<Seq<char>>::empty());
    }

    /// Removes the history entry at `index` (0 is the newest) and returns it; `None`, and
    /// nothing removed, when there is no such entry.
    pub fn history_remove(&mut self, index: usize) -> (r: Option<String>)
        requires
            old(self).wf(),
        ensures
            final(self).wf(),
            match r {
                Some(e) => index < old(self).history_view().len() && e@ == old(self).history_view()[index as int]
                    && final(self).history_view() == old(self).history_view().remove(index as int),
                None => index >= old(self).history_view().len() && final(self).history_view() == old(self).history_view(),
            },
            final(self).storage_view() == old(self).storage_view(),
            final(self).state == old(self).state,
            final(self).buffer() == old(self).buffer(),
            final(self).history_capacity() == old(self).history_capacity(),
    {
        let ghost h0 = self.history@;
        let r = self.history.remove(index);
        proof {
            if r is Some {
                assert(texts(self.history@) =~= texts(h0).remove(index as int));
            }
        }
        r
    }

    //@! Misc

    /// ### resolve_path
    ///
    /// `path` with a leading `~` replaced by the home directory.
    pub fn resolve_path(&self, path: String) -> (r: String)
        ensures
            r@ == resolved_path(self.home(), path@),
    {
        resolve_home_path(&self.home_dir, path)
    }

    /// ### reverse_search
    ///
    /// The history entries (newest first) that contain `needle`; with a maximum, the search
    /// stops once it has collected that many. `None` when nothing matched.
    pub fn reverse_search(&self, needle: &String, max_entries: Option<usize>) -> (r: Option<Vec<String>>)
        ensures
            match r {
                Some(v) => reverse_search_result(self.history_view(), needle@, max_entries) == Some(texts(v@)),
                None => reverse_search_result(self.history_view(), needle@, max_entries) is None,
            },
    {
        let ghost h = self.history_view();
        let nv = chars_of(needle.as_str());
        let mut matches: Vec<String> = Vec::new();
        let n = self.history.len();
        let mut i: usize = 0;
        while i < n
            invariant_except_break
                !search_prefix(h, needle@, max_entries, i as nat).1,
            invariant
                n == h.len(),
                h == self.history_view(),
                i <= n,
                nv@ == needle@,
                search_prefix(h, needle@, max_entries, i as nat).0 == texts(matches@),
            ensures
                i == n || search_prefix(h, needle@, max_entries, i as nat).1,
            decreases n - i,
        {
            let ev = chars_of(self.history[i].as_str());
            let ghost before = matches@;
            if contains(&ev, &nv) {
                matches.push(self.history[i].clone());
            }
            assert(texts(matches@) =~= (if contains_seq(h[i as int], needle@) { texts(before).push(h[i as int]) } else { texts(before) }));
            let stop = match max_entries {
                Some(m) => matches.len() == m,
                None => false,
            };
            proof {
                let sp = search_prefix(h, needle@, max_entries, (i + 1) as nat);
                assert(sp.0 == texts(matches@));
                assert(sp.1 == stop);
            }
            i = i + 1;
            if stop {
                break;
            }
        }
        proof {
            if i < n {
                lemma_search_stopped(h, needle@, max_entries, i as nat, n as nat);
            }
        }
        if matches.len() == 0 {
            None
        } else {
            Some(matches)
        }
    }

    /// ### reverse_search_hits
    ///
    /// The `hit`-th history entry (from the newest, counting from 0) that contains `needle`.
    pub fn reverse_search_hits(&self, needle: &String, hit: usize) -> (r: Option<String>)
        ensures
            match r {
                Some(e) => hit < matching(self.history_view(), needle@).len() && e@ == matching(self.history_view(), needle@)[hit as int],
                None => hit >= matching(self.history_view(), needle@).len(),
            },
    {
        let ghost h = self.history_view();
        let nv = chars_of(needle.as_str());
        let n = self.history.len();
        let mut matchnth: usize = 0;
        for i in 0..n
            invariant
                n == h.len(),
                h == self.history_view(),
                nv@ == needle@,
                matchnth == matching(h.subrange(0, i as int), needle@).len(),
                matchnth <= hit,
        {
            let ev = chars_of(self.history[i].as_str());
            proof {
                assert(h.subrange(0, i + 1).drop_last() =~= h.subrange(0, i as int));
            }
            if contains(&ev, &nv) {
                if matchnth == hit {
                    proof {
                        lemma_matching_prefix(h, needle@, i + 1);
                        assert(matching(h.subrange(0, i + 1), needle@)[hit as int] == h[i as int]);
                    }
                    return Some(self.history[i].clone());
                }
                matchnth = matchnth + 1;
            }
        }
        proof {
            assert(h.subrange(0, n as int) =~= h);
        }
        None
    }
}

/// Looks a key up in a table of strings.
fn table_get(table: &StringMap<String>, key: &String) -> (r: Option<String>)
    requires
        table.wf(),
    ensures
        match r {
            Some(v) => text_map(table.view()).dom().contains(key@) && v@ == text_map(table.view())[key@],
            None => !text_map(table.view()).dom().contains(key@),
        },
{
    match table.get(key.as_str()) {
        Some(v) => Some(v.clone()),
        None => None,
    }
}

impl ShellCore {
    /// ### flush
    ///
    /// Empties the input buffer.
    pub fn flush(&mut self)
        requires
            old(self).wf(),
        ensures
            final(self).wf(),
            final(self).buffer() == Seq::<char>::empty(),
            *final(self) == (ShellCore { buf_in: final(self).buf_in, ..*old(self) }),
    {
        self.buf_in = String::new();
    }

    //@! Storage

    /// ### value_get
    ///
    /// The value of a name: from the session storage, else from the environment.
    pub fn value_get(&self, key: &String) -> (r: Option<String>)
        requires
            self.wf(),
        ensures
            match r {
                Some(v) => self.value_of(key@) == Some(v@),
                None => self.value_of(key@) is None,
            },
    {
        match self.storage_get(key) {
            Some(v) => Some(v),
            None => self.environ_get(key),
        }
    }

    /// ### value_unset
    ///
    /// Removes a name from the session storage and from the environment.
    pub fn value_unset(&mut self, key: &String)
        requires
            old(self).wf(),
        ensures
            final(self).wf(),
            final(self).storage_view() == old(self).storage_view().remove(key@),
            final(self).environ_view() == old(self).environ_view().remove(key@),
            final(self).value_of(key@) is None,
            final(self).alias_view() == old(self).alias_view(),
            final(self).functions_view() == old(self).functions_view(),
            final(self).dirs_view() == old(self).dirs_view(),
            final(self).wrkdir() == old(self).wrkdir(),
            final(self).history_view() == old(self).history_view(),
    {
        self.storage_unset(key);
        self.environ_unset(key);
    }

    /// ### environ_get
    ///
    /// A variable of the environment.
    pub fn environ_get(&self, key: &String) -> (r: Option<String>)
        requires
            self.wf(),
        ensures
            match r {
                Some(v) => self.environ_view().dom().contains(key@) && v@ == self.environ_view()[key@],
                None => !self.environ_view().dom().contains(key@),
            },
    {
        table_get(&self.environ, key)
    }

    /// ### environ_set
    ///
    /// Sets a variable of the environment; `false`, and nothing set, when `key` is not a
    /// variable name.
    pub fn environ_set(&mut self, key: String, value: String) -> (r: bool)
        requires
            old(self).wf(),
        ensures
            final(self).wf(),
            r == valid_var_name(key@),
            r ==> final(self).environ_view() == old(self).environ_view().insert(key@, value@),
            !r ==> final(self).environ_view() == old(self).environ_view(),
            final(self).storage_view() == old(self).storage_view(),
            final(self).alias_view() == old(self).alias_view(),
            final(self).functions_view() == old(self).functions_view(),
            final(self).dirs_view() == old(self).dirs_view(),
            final(self).wrkdir() == old(self).wrkdir(),
            final(self).history_view() == old(self).history_view(),
    {
        if !is_valid_var_name(key.as_str()) {
            return false;
        }
        self.host.set_env(&key, &value);
        let ghost k = key@;
        let ghost v = value@;
        self.environ.insert(key, value);
        assert(self.environ_view() =~= old(self).environ_view().insert(k, v));
        true
    }

    /// ### environ_unset
    ///
    /// Removes a variable from the environment.
    pub fn environ_unset(&mut self, key: &String)
        requires
            old(self).wf(),
        ensures
            final(self).wf(),
            final(self).environ_view() == old(self).environ_view().remove(key@),
            final(self).storage_view() == old(self).storage_view(),
            final(self).alias_view() == old(self).alias_view(),
            final(self).functions_view() == old(self).functions_view(),
            final(self).dirs_view() == old(self).dirs_view(),
            final(self).wrkdir() == old(self).wrkdir(),
            final(self).history_view() == old(self).history_view(),
    {
        self.host.remove_env(key);
        let _ = self.environ.remove(key.as_str());
        assert(self.environ_view() =~= old(self).environ_view().remove(key@));
    }

    /// ### storage_get
    ///
    /// A value of the session storage.
    pub fn storage_get(&self, key: &String) -> (r: Option<String>)
        requires
            self.wf(),
        ensures
            match r {
                Some(v) => self.storage_view().dom().contains(key@) && v@ == self.storage_view()[key@],
                None => !self.storage_view().dom().contains(key@),
            },
    {
        table_get(&self.storage, key)
    }

    /// ### storage_set
    ///
    /// Sets a value in the session storage; `false`, and nothing set, when `key` is not a
    /// variable name.
    pub fn storage_set(&mut self, key: String, value: String) -> (r: bool)
        requires
            old(self).wf(),
        ensures
            final(self).wf(),
            r == valid_var_name(key@),
            r ==> final(self).storage_view() == old(self).storage_view().insert(key@, value@),
            !r ==> final(self).storage_view() == old(self).storage_view(),
            final(self).environ_view() == old(self).environ_view(),
            final(self).alias_view() == old(self).alias_view(),
            final(self).functions_view() == old(self).functions_view(),
            final(self).dirs_view() == old(self).dirs_view(),
            final(self).wrkdir() == old(self).wrkdir(),
            final(self).history_view() == old(self).history_view(),
    {
        if !is_valid_var_name(key.as_str()) {
            return false;
        }
        self.storage_arg_set(key, value);
        true
    }

    /// Sets a value in the session storage under any key: the positional arguments of a
    /// function (`0`, `1`, ...) and the last exit status (`?`) are not variable names.
    pub fn storage_arg_set(&mut self, key: String, value: String)
        requires
            old(self).wf(),
        ensures
            final(self).wf(),
            final(self).storage_view() == old(self).storage_view().insert(key@, value@),
            final(self).environ_view() == old(self).environ_view(),
            final(self).alias_view() == old(self).alias_view(),
            final(self).functions_view() == old(self).functions_view(),
            final(self).dirs_view() == old(self).dirs_view(),
            final(self).wrkdir() == old(self).wrkdir(),
            final(self).history_view() == old(self).history_view(),
            final(self).state == old(self).state,
            final(self).buffer() == old(self).buffer(),
    {
        let ghost k = key@;
        let ghost v = value@;
        self.storage.insert(key, value);
        assert(self.storage_view() =~= old(self).storage_view().insert(k, v));
    }

    /// ### storage_unset
    ///
    /// Removes a value from the session storage.
    pub fn storage_unset(&mut self, key: &String)
        requires
            old(self).wf(),
        ensures
            final(self).wf(),
            final(self).storage_view() == old(self).storage_view().remove(key@),
            final(self).environ_view() == old(self).environ_view(),
            final(self).alias_view() == old(self).alias_view(),
            final(self).functions_view() == old(self).functions_view(),
            final(self).dirs_view() == old(self).dirs_view(),
            final(self).wrkdir() == old(self).wrkdir(),
            final(self).history_view() == old(self).history_view(),
    {
        let _ = self.storage.remove(key.as_str());
        assert(self.storage_view() =~= old(self).storage_view().remove(key@));
    }
}

impl ShellCore {
    //@! Readline

    /// Stores the exit status of the last expression under `status` and `?`.
    fn store_status(&mut self, rc: u8)
        requires
            old(self).wf(),
        ensures
            final(self).wf(),
            final(self).storage_view() == old(self).storage_view().insert("status"@, decimal_digits(rc as nat)).insert("?"@, decimal_digits(rc as nat)),
            final(self).state == old(self).state,
            final(self).history_view() == old(self).history_view(),
            final(self).buffer() == old(self).buffer(),
    {
        proof {
            reveal_strlit("status");
            reveal_strlit("?");
        }
        self.storage_arg_set(owned("status"), u128_to_string(rc as u128));
        self.storage_arg_set(owned("?"), u128_to_string(rc as u128));
    }

    /// ### readline
    ///
    /// Reads an input line. In the idle or waiting state, the line (after what is buffered,
    /// when waiting) is parsed; a valid expression is recorded in the history and run, its
    /// exit status stored under `status` and `?`, and the session goes back to idle. An
    /// incomplete expression is buffered and the session waits for more input; any other
    /// parser error is recorded in the history and returned. In another state the line is
    /// refused. The parser is handed the pending line (`pending_line`); whatever it answers,
    /// the outcome is what `readline_parsed` states for that answer.
    pub fn readline(&mut self, stdin: String) -> (r: Result<u8, ShellError>)
        requires
            old(self).wf(),
        ensures
            final(self).wf(),
            readline_outcome(*old(self), *final(self), stdin@, r),
            old(self).state == ShellState::Idle || old(self).state == ShellState::Waiting ==> exists|parsed: Result<ShellExpression, ParserError>|
                parsed_outcome(*old(self), *final(self), stdin@, pending_line_spec(*old(self), stdin@), parsed, STEP_BUDGET, r),
    {
        self.readline_budget(stdin, STEP_BUDGET)
    }

    /// `readline` with a runner that may execute `budget` statements.
    pub fn readline_budget(&mut self, stdin: String, budget: u64) -> (r: Result<u8, ShellError>)
        requires
            old(self).wf(),
        ensures
            final(self).wf(),
            readline_outcome(*old(self), *final(self), stdin@, r),
            old(self).state == ShellState::Idle || old(self).state == ShellState::Waiting ==> exists|parsed: Result<ShellExpression, ParserError>|
                parsed_outcome(*old(self), *final(self), stdin@, pending_line_spec(*old(self), stdin@), parsed, budget, r),
        decreases budget, 3nat,
    {
        if self.state != ShellState::Idle && self.state != ShellState::Waiting {
            return Err(ShellError::ShellNotInIdle);
        }
        let line = self.pending_line(&stdin);
        let context = self.parse_context();
        let parsed = self.parser.parse(&context, &line);
        let ghost p = parsed;
        let r = self.readline_parsed(stdin, line, parsed, budget);
        assert(parsed_outcome(*old(self), *self, stdin@, pending_line_spec(*old(self), stdin@), p, budget, r));
        r
    }

    /// ### pending_line
    ///
    /// The line `readline` hands to the parser for `stdin`: the buffered input followed by
    /// `stdin` while the session waits for the rest of a statement, else `stdin`.
    pub fn pending_line(&self, stdin: &String) -> (r: String)
        ensures
            r@ == pending_line_spec(*self, stdin@),
    {
        if self.state == ShellState::Waiting {
            let mut l = self.buf_in.clone();
            l.append(stdin.as_str());
            l
        } else {
            stdin.clone()
        }
    }

    /// What `readline` does once the parser answered for `line` (the pending line of
    /// `stdin`): a valid expression is recorded in the history and run with a runner that
    /// may execute `budget` statements, its exit status stored under `status` and `?`; an
    /// incomplete line is buffered and the session waits; another error is recorded in the
    /// history.
    #[verifier::spinoff_prover]
    pub fn readline_parsed(&mut self, stdin: String, line: String, parsed: Result<ShellExpression, ParserError>, budget: u64) -> (r: Result<u8, ShellError>)
        requires
            old(self).wf(),
        ensures
            final(self).wf(),
            parsed_outcome(*old(self), *final(self), stdin@, line@, parsed, budget, r),
        decreases budget, 2nat,
    {
        let ghost input = stdin@;
        if self.state != ShellState::Idle && self.state != ShellState::Waiting {
            return Err(ShellError::ShellNotInIdle);
        }
        match parsed {
            Ok(expression) => {
                let ghost before = *old(self);
                let ghost l = line@;
                self.history_push(line);
                assert(self.history_view() == history_after_push(before.history_view(), before.history_capacity(), l));
                self.state = ShellState::Running;
                self.execution_started = self.host.now_ms();
                if budget == 0 {
                    self.store_status(crate::runner::ABORT_EXIT_CODE);
                    self.state = ShellState::Idle;
                    return Ok(crate::runner::ABORT_EXIT_CODE);
                }
                let ghost mid = *self;
                let ghost expr = expression;
                let mut runner = ShellRunner::with_budget(budget - 1);
                let rc = runner.run(self, expression);
                let ghost ran = *self;
                self.store_status(rc);
                self.execution_time = self.host.now_ms().saturating_sub(self.execution_started);
                self.state = ShellState::Idle;
                assert(started(before, mid, l));
                assert(runs_to(expr, mid, ran, (budget - 1) as u64, rc));
                assert(status_stored(ran, *self, rc));
                assert(ran_from(before, *self, l, expr, (budget - 1) as u64, rc));
                assert(self.storage_view().dom().contains("?"@));
                assert(self.storage_view()["?"@] == decimal_digits(rc as nat));
                Ok(rc)
            },
            Err(err) => {
                let ghost before = *old(self);
                let ghost l = line@;
                if err.code == ParserErrorCode::Incomplete {
                    self.state = ShellState::Waiting;
                    self.buf_in.append(stdin.as_str());
                    assert(self.buffer() == before.buffer() + input);
                } else {
                    self.history_push(line);
                    assert(self.history_view() == history_after_push(before.history_view(), before.history_capacity(), l));
                }
                Err(ShellError::Parser(err))
            },
        }
    }

    /// ### eval
    ///
    /// Runs an expression; its exit status is stored under `status` and `?`.
    pub fn eval(&mut self, expression: ShellExpression) -> (rc: u8)
        requires
            old(self).wf(),
        ensures
            final(self).wf(),
            final(self).storage_view().dom().contains("?"@),
            final(self).storage_view()["?"@] == decimal_digits(rc as nat),
            expression.statements@.len() == 0 ==> rc == 0,
            final(self).storage_view().dom().contains("status"@),
            final(self).storage_view()["status"@] == decimal_digits(rc as nat),
            quick_code(expression) matches Some(code) ==> rc == code,
            exists|ran: ShellCore| #[trigger] runs_to(expression, *old(self), ran, (STEP_BUDGET - 1) as u64, rc)
                && status_stored(ran, *final(self), rc) && final(self).state == ran.state,
            quick_code(expression) is Some ==> final(self).history_view() == old(self).history_view()
                && final(self).state == old(self).state,
    {
        self.eval_budget(expression, STEP_BUDGET)
    }

    /// `eval` with a runner that may execute `budget` statements.
    pub fn eval_budget(&mut self, expression: ShellExpression, budget: u64) -> (rc: u8)
        requires
            old(self).wf(),
        ensures
            final(self).wf(),
            final(self).storage_view().dom().contains("?"@),
            final(self).storage_view()["?"@] == decimal_digits(rc as nat),
            budget == 0 ==> rc == crate::runner::ABORT_EXIT_CODE,
            budget > 0 && expression.statements@.len() == 0 ==> rc == 0,
            final(self).storage_view().dom().contains("status"@),
            final(self).storage_view()["status"@] == decimal_digits(rc as nat),
            budget > 1 ==> (quick_code(expression) matches Some(code) ==> rc == code),
            budget > 0 ==> exists|ran: ShellCore| #[trigger] runs_to(expression, *old(self), ran, (budget - 1) as u64, rc)
                && status_stored(ran, *final(self), rc) && final(self).state == ran.state,
            budget == 0 ==> status_stored(*old(self), *final(self), rc) && final(self).state == old(self).state,
        decreases budget, 3nat,
    {
        let ghost expr = expression;
        let rc = if budget == 0 {
            crate::runner::ABORT_EXIT_CODE
        } else {
            let mut runner = ShellRunner::with_budget(budget - 1);
            runner.run(self, expression)
        };
        let ghost ran = *self;
        self.store_status(rc);
        proof {
            if budget > 0 {
                assert(runs_to(expr, *old(self), ran, (budget - 1) as u64, rc));
            }
        }
        rc
    }

    /// ### source
    ///
    /// Reads a file and runs it as an expression: the exit status, a parser error, or the
    /// error for a file that cannot be read.
    pub fn source(&mut self, file: String) -> (r: Result<u8, ShellError>)
        requires
            old(self).wf(),
        ensures
            final(self).wf(),
            sourced(*old(self), *final(self), file, r),
    {
        self.source_budget(file, STEP_BUDGET)
    }

    /// `source` with a runner that may execute `budget` statements.
    pub fn source_budget(&mut self, file: String, budget: u64) -> (r: Result<u8, ShellError>)
        requires
            old(self).wf(),
        ensures
            final(self).wf(),
            sourced(*old(self), *final(self), file, r),
        decreases budget, 3nat,
    {
        let content = match self.host.read_file(&file) {
            Ok(c) => c,
            Err(e) => {
                return Err(read_error(file, e));
            },
        };
        let context = self.parse_context();
        let parsed = self.parser.parse(&context, &content);
        self.source_parsed(parsed, budget)
    }

    /// What `source` does once the parser answered for the file's text: an expression is
    /// run with a runner that may execute `budget - 1` statements (255 without budget), its
    /// exit status stored under `status` and `?`; a parser error is returned and the session
    /// stays as it was.
    pub fn source_parsed(&mut self, parsed: Result<ShellExpression, ParserError>, budget: u64) -> (r: Result<u8, ShellError>)
        requires
            old(self).wf(),
        ensures
            final(self).wf(),
            match parsed {
                Ok(expr) => match r {
                    Ok(rc) => {
                        &&& final(self).storage_view().dom().contains("?"@)
                        &&& final(self).storage_view()["?"@] == decimal_digits(rc as nat)
                        &&& final(self).storage_view().dom().contains("status"@)
                        &&& final(self).storage_view()["status"@] == decimal_digits(rc as nat)
                        &&& budget == 0 ==> rc == crate::runner::ABORT_EXIT_CODE
                        &&& (budget > 1 && expr.statements@.len() == 0 ==> rc == 0)
                        &&& (budget > 2 ==> (quick_code(expr) matches Some(code) ==> rc == code))
                    },
                    Err(_) => false,
                },
                Err(e) => r == Err::<u8, ShellError>(ShellError::Parser(e)) && *final(self) == *old(self),
            },
        decreases budget, 2nat,
    {
        match parsed {
            Ok(expression) => {
                if budget == 0 {
                    self.store_status(crate::runner::ABORT_EXIT_CODE);
                    return Ok(crate::runner::ABORT_EXIT_CODE);
                }
                Ok(self.eval_budget(expression, budget - 1))
            },
            Err(err) => Err(ShellError::Parser(err)),
        }
    }
}

/// The error `source` gives for a file that cannot be read.
pub open spec fn read_error_spec(file: String, e: FileError) -> ShellError {
    match e {
        FileError::NotFound => ShellError::NoSuchFileOrDirectory(file),
        FileError::PermissionDenied => ShellError::PermissionDenied(file),
        FileError::Other => ShellError::Other,
    }
}

/// The error `source` gives for a file that cannot be read: `NoSuchFileOrDirectory` or
/// `PermissionDenied` with the file, else `Other`.
pub fn read_error(file: String, e: FileError) -> (r: ShellError)
    ensures
        r == read_error_spec(file, e),
{
    match e {
        FileError::NotFound => ShellError::NoSuchFileOrDirectory(file),
        FileError::PermissionDenied => ShellError::PermissionDenied(file),
        FileError::Other => ShellError::Other,
    }
}

/// What sourcing `file` did, given the session before and after it and its result: a
/// file that cannot be read, or does not parse, gives its error and leaves the session as
/// it was; a file that ran gives its exit status, stored under `status` and `?`.
pub open spec fn sourced(before: ShellCore, after: ShellCore, file: String, r: Result<u8, ShellError>) -> bool {
    match r {
        Ok(rc) => after.storage_view().dom().contains("?"@) && after.storage_view()["?"@] == decimal_digits(rc as nat)
            && after.storage_view().dom().contains("status"@) && after.storage_view()["status"@] == decimal_digits(rc as nat),
        Err(e) => {
            &&& after == before
            &&& (e == ShellError::NoSuchFileOrDirectory(file) || e == ShellError::PermissionDenied(file)
                || e == ShellError::Other || e is Parser)
        },
    }
}

/// What a `readline` call did, given the session before and after it and its result.
/// The line a reply completes: the buffered input followed by the reply while the session
/// waits for the rest of a statement, else the reply alone.
pub open spec fn pending_line_spec(core: ShellCore, stdin: Seq<char>) -> Seq<char> {
    if core.state == ShellState::Waiting {
        core.buffer() + stdin
    } else {
        stdin
    }
}

/// The session a read line starts running in: `before` with the line first in its
/// history, in the running state, and otherwise as it was.
pub open spec fn started(before: ShellCore, mid: ShellCore, line: Seq<char>) -> bool {
    &&& mid.history_view() == history_after_push(before.history_view(), before.history_capacity(), line)
    &&& mid.history_capacity() == before.history_capacity()
    &&& mid.storage_view() == before.storage_view()
    &&& mid.alias_view() == before.alias_view()
    &&& mid.functions_view() == before.functions_view()
    &&& mid.environ_view() == before.environ_view()
    &&& mid.dirs_view() == before.dirs_view()
    &&& mid.wrkdir() == before.wrkdir()
    &&& mid.buffer() == before.buffer()
    &&& mid.state == ShellState::Running
}

/// The session after a run, `ran`, with the exit status `rc` stored under `status` and
/// `?`; the history and the buffered input as the run left them.
pub open spec fn status_stored(ran: ShellCore, after: ShellCore, rc: u8) -> bool {
    &&& after.storage_view() == ran.storage_view().insert("status"@, decimal_digits(rc as nat)).insert("?"@, decimal_digits(rc as nat))
    &&& after.history_view() == ran.history_view()
    &&& after.buffer() == ran.buffer()
}

/// What running a read line did: `before` started running it (`started`), the expression
/// ran with `steps` statements of budget (`runs_to`), and its exit status was stored.
pub open spec fn ran_from(before: ShellCore, after: ShellCore, line: Seq<char>, expr: ShellExpression, steps: u64, rc: u8) -> bool {
    exists|mid: ShellCore, ran: ShellCore| {
        &&& started(before, mid, line)
        &&& #[trigger] runs_to(expr, mid, ran, steps, rc)
        &&& status_stored(ran, after, rc)
    }
}

/// What reading a line does once the parser answered `parsed` for `line`: see
/// `ShellCore::readline_parsed`. For an expression that runs no statement but a `Return`
/// (with some budget left), the session is as before but for the history, which holds the
/// line first, the exit status, and the state.
pub open spec fn parsed_outcome(
    before: ShellCore,
    after: ShellCore,
    stdin: Seq<char>,
    line: Seq<char>,
    parsed: Result<ShellExpression, ParserError>,
    budget: u64,
    r: Result<u8, ShellError>,
) -> bool {
    if before.state != ShellState::Idle && before.state != ShellState::Waiting {
        r == Err::<u8, ShellError>(ShellError::ShellNotInIdle) && after == before
    } else {
        match parsed {
            Ok(expr) => match r {
                Ok(rc) => {
                    &&& after.state == ShellState::Idle
                    &&& after.storage_view().dom().contains("?"@)
                    &&& after.storage_view()["?"@] == decimal_digits(rc as nat)
                    &&& after.storage_view().dom().contains("status"@)
                    &&& after.storage_view()["status"@] == decimal_digits(rc as nat)
                    &&& budget == 0 ==> rc == crate::runner::ABORT_EXIT_CODE
                    &&& (budget > 1 ==> (quick_code(expr) matches Some(c) ==> rc == c))
                    &&& budget > 0 ==> ran_from(before, after, line, expr, (budget - 1) as u64, rc)
                    &&& (budget > 1 && quick_code(expr) is Some) ==> {
                        &&& after.history_view() == history_after_push(before.history_view(), before.history_capacity(), line)
                        &&& after.storage_view() == before.storage_view().insert("status"@, decimal_digits(rc as nat)).insert("?"@, decimal_digits(rc as nat))
                        &&& after.buffer() == before.buffer()
                    }
                },
                Err(_) => false,
            },
            Err(e) => {
                &&& r == Err::<u8, ShellError>(ShellError::Parser(e))
                &&& if e.code == ParserErrorCode::Incomplete {
                    &&& after.state == ShellState::Waiting
                    &&& after.buffer() == before.buffer() + stdin
                    &&& after.history_view() == before.history_view()
                } else {
                    &&& after.state == before.state
                    &&& after.buffer() == before.buffer()
                    &&& after.history_view() == history_after_push(before.history_view(), before.history_capacity(), line)
                }
            },
        }
    }
}

pub open spec fn readline_outcome(before: ShellCore, after: ShellCore, stdin: Seq<char>, r: Result<u8, ShellError>) -> bool {
    let line = if before.state == ShellState::Waiting { before.buffer() + stdin } else { stdin };
    if before.state != ShellState::Idle && before.state != ShellState::Waiting {
        r == Err::<u8, ShellError>(ShellError::ShellNotInIdle) && after == before
    } else {
        match r {
            Ok(rc) => after.state == ShellState::Idle && after.storage_view().dom().contains("?"@)
                && after.storage_view()["?"@] == decimal_digits(rc as nat)
                && after.storage_view().dom().contains("status"@)
                && after.storage_view()["status"@] == decimal_digits(rc as nat),
            Err(ShellError::Parser(e)) => if e.code == ParserErrorCode::Incomplete {
                &&& after.state == ShellState::Waiting
                &&& after.buffer() == before.buffer() + stdin
                &&& after.history_view() == before.history_view()
            } else {
                &&& after.state == before.state
                &&& after.buffer() == before.buffer()
                &&& after.history_view() == history_after_push(before.history_view(), before.history_capacity(), line)
            },
            Err(_) => false,
        }
    }
}

/// Law: pushing onto a history that respects its size gives one that still does (it holds
/// at least the new entry), with the new entry first and the previous entries after it,
/// newest first, the oldest dropped when there was no room.
pub proof fn law_history_push_newest_first(h: Seq<Seq<char>>, size: nat, e: Seq<char>)
    requires
        h.len() <= size || h.len() <= 1,
    ensures
        history_after_push(h, size, e)[0] == e,
        history_after_push(h, size, e).len() <= size || history_after_push(h, size, e).len() <= 1,
        forall|i: int| 0 <= i < history_after_push(h, size, e).len() - 1 ==> #[trigger] history_after_push(h, size, e)[i + 1] == h[i],
        h.len() < size ==> history_after_push(h, size, e).len() == h.len() + 1,
{
}

/// Law: on a directory stack that is not full, `pushd` then `popd_front` gives back the
/// pushed directory and the stack as it was.
pub proof fn law_pushd_then_popd_front(d: Seq<Seq<char>>, dir: Seq<char>)
    requires
        d.len() + 1 < DIRS_CAPACITY,
    ensures
        dirs_after_push(d, dir)[0] == dir,
        dirs_after_push(d, dir).drop_first() == d,
{
    assert(dirs_after_push(d, dir).drop_first() =~= d);
}

/// Law: once an alias is set, getting it gives its command; once it is removed, it is gone
/// whatever it was before.
pub proof fn law_alias_set_get_unset(aliases: Map<Seq<char>, Seq<char>>, name: Seq<char>, command: Seq<char>)
    ensures
        aliases.insert(name, command).dom().contains(name),
        aliases.insert(name, command)[name] == command,
        !aliases.insert(name, command).remove(name).dom().contains(name),
        aliases.insert(name, command).remove(name) == aliases.remove(name),
{
    assert(aliases.insert(name, command).remove(name) =~= aliases.remove(name));
}

/// Law: once a function is defined, getting it gives its expression, and the other
/// functions stay as they were.
pub proof fn law_function_set_get(functions: Map<Seq<char>, ShellExpression>, name: Seq<char>, expression: ShellExpression, other: Seq<char>)
    requires
        other != name,
    ensures
        functions.insert(name, expression).dom().contains(name),
        functions.insert(name, expression)[name].model() == expression.model(),
        functions.insert(name, expression).dom().contains(other) == functions.dom().contains(other),
        functions.dom().contains(other) ==> functions.insert(name, expression)[other] == functions[other],
{
}

/// Law: a name's value is the session storage's when the storage has it (it shadows the
/// environment), the environment's otherwise.
pub proof fn law_storage_shadows_environment(core: ShellCore, key: Seq<char>)
    ensures
        core.storage_view().dom().contains(key) ==> core.value_of(key) == Some(core.storage_view()[key]),
        !core.storage_view().dom().contains(key) && core.environ_view().dom().contains(key) ==> core.value_of(key) == Some(core.environ_view()[key]),
        !core.storage_view().dom().contains(key) && !core.environ_view().dom().contains(key) ==> core.value_of(key) is None,
{
}

/// Law: every entry a reverse search by hits can return contains the needle, and comes
/// from the history.
pub proof fn law_matches_contain_needle(h: Seq<Seq<char>>, needle: Seq<char>)
    ensures
        forall|i: int| 0 <= i < matching(h, needle).len() ==> contains_seq(#[trigger] matching(h, needle)[i], needle),
        forall|i: int| 0 <= i < matching(h, needle).len() ==> h.contains(#[trigger] matching(h, needle)[i]),
        matching(h, needle).len() <= h.len(),
    decreases h.len(),
{
    if h.len() > 0 {
        law_matches_contain_needle(h.drop_last(), needle);
        let rest = matching(h.drop_last(), needle);
        assert forall|i: int| 0 <= i < matching(h, needle).len() implies h.contains(#[trigger] matching(h, needle)[i]) by {
            if i < rest.len() {
                let x = rest[i];
                assert(h.drop_last().contains(x));
                let j = choose|j: int| 0 <= j < h.drop_last().len() && h.drop_last()[j] == x;
                assert(h[j] == x);
            } else {
                assert(h[h.len() - 1] == h.last());
            }
        }
    }
}

/// Without a maximum, a reverse search over the first `n` entries collects exactly the
/// entries among them that contain the needle, and never stops early.
proof fn lemma_search_unbounded(h: Seq<Seq<char>>, needle: Seq<char>, n: nat)
    requires
        n <= h.len(),
    ensures
        search_prefix(h, needle, None, n) == (matching(h.take(n as int), needle), false),
    decreases n,
{
    if n > 0 {
        lemma_search_unbounded(h, needle, (n - 1) as nat);
        assert(h.take(n as int).drop_last() =~= h.take(n - 1));
        assert(h.take(n as int).last() == h[n - 1]);
    } else {
        assert(h.take(0) =~= Seq::<Seq<char>>::empty());
    }
}

/// A reverse search without a maximum gives the entries that contain the needle (`None`
/// when there is none), so its `hit`-th entry is the `hit`-th hit `reverse_search_hits`
/// gives: what `matching` holds at `hit`, nothing when it holds fewer entries.
pub proof fn law_search_hits_agree(h: Seq<Seq<char>>, needle: Seq<char>, hit: nat)
    ensures
        match reverse_search_result(h, needle, None) {
            Some(found) => found == matching(h, needle) && (hit < found.len() ==> found[hit as int] == matching(h, needle)[hit as int]),
            None => matching(h, needle).len() == 0 && hit >= matching(h, needle).len(),
        },
{
    lemma_search_unbounded(h, needle, h.len());
    assert(h.take(h.len() as int) =~= h);
}

/// Law: with a maximum of at least one, a reverse search collects at most that many
/// entries, and every entry it collects contains the needle.
pub proof fn law_reverse_search_bounded(h: Seq<Seq<char>>, needle: Seq<char>, m: usize, n: nat)
    requires
        m >= 1,
        n <= h.len(),
    ensures
        search_prefix(h, needle, Some(m), n).0.len() <= m,
        search_prefix(h, needle, Some(m), n).1 <==> search_prefix(h, needle, Some(m), n).0.len() == m,
        forall|i: int| 0 <= i < search_prefix(h, needle, Some(m), n).0.len() ==> contains_seq(#[trigger] search_prefix(h, needle, Some(m), n).0[i], needle),
    decreases n,
{
    if n > 0 {
        law_reverse_search_bounded(h, needle, m, (n - 1) as nat);
    }
}

} // verus!
