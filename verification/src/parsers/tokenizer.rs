//! # Bash tokenizer
//!
//! Splits a Bash input into arguments. The input is read line by line and word by word
//! (words are separated by whitespace); each word goes through the block state machine
//! (`spec_update`), which drops the quote characters that open or close a quote. Operators
//! (`|`, `||`, `&`, `&&`, `>`, `>>`, `<`, `<<`, `;`) are split off a word; the words of a
//! quoted block are joined by a space into one argument once the block is closed; lines
//! after the first are separated by a `;` argument.

use super::state::{escaped, spec_update, top_is, BashParserBlock, BashParserState, UpdateResult};
use crate::text::{owned, string_from_chars, u128_to_string, decimal_digits};
use crate::{ParserError, ParserErrorCode};
use std::collections::VecDeque;
use vstd::prelude::*;

verus! {

/// The Unicode `White_Space` property (`char::is_whitespace`).
pub open spec fn is_ws(c: char) -> bool {
    ('\u{9}' <= c && c <= '\u{d}') || c == ' ' || c == '\u{85}' || c == '\u{a0}' || c == '\u{1680}' || (
    '\u{2000}' <= c && c <= '\u{200a}') || c == '\u{2028}' || c == '\u{2029}' || c == '\u{202f}' || c
        == '\u{205f}' || c == '\u{3000}'
}

/// `char::is_whitespace`.
pub fn is_whitespace(c: char) -> (r: bool)
    ensures
        r == is_ws(c),
{
    ('\u{9}' <= c && c <= '\u{d}') || c == ' ' || c == '\u{85}' || c == '\u{a0}' || c == '\u{1680}' || (
    '\u{2000}' <= c && c <= '\u{200a}') || c == '\u{2028}' || c == '\u{2029}' || c == '\u{202f}' || c
        == '\u{205f}' || c == '\u{3000}'
}

/// The lines of `s`: the pieces between `\n` characters (`str::split("\n")`).
pub open spec fn split_lines(s: Seq<char>) -> Seq<Seq<char>>
    decreases s.len(),
{
    if s.len() == 0 {
        seq![Seq::<char>::empty()]
    } else {
        let p = split_lines(s.drop_last());
        if s.last() == '\n' {
            p.push(Seq::<char>::empty())
        } else {
            p.update(p.len() - 1, p.last().push(s.last()))
        }
    }
}

/// The words of `s`: its maximal runs of non-whitespace characters (`str::split_whitespace`).
pub open spec fn words(s: Seq<char>) -> Seq<Seq<char>>
    decreases s.len(),
{
    if s.len() == 0 {
        Seq::<Seq<char>>::empty()
    } else {
        let w = words(s.drop_last());
        let c = s.last();
        if is_ws(c) {
            w
        } else if s.len() >= 2 && !is_ws(s[s.len() - 2]) {
            w.update(w.len() - 1, w.last().push(c))
        } else {
            w.push(seq![c])
        }
    }
}

/// All characters are ASCII.
pub open spec fn is_ascii_seq(s: Seq<char>) -> bool {
    forall|i: int| 0 <= i < s.len() ==> (#[trigger] s[i] as u32) < 128
}

/// The words `s` joined by single spaces.
pub open spec fn join_space(s: Seq<Seq<char>>) -> Seq<char>
    decreases s.len(),
{
    if s.len() == 0 {
        Seq::empty()
    } else if s.len() == 1 {
        s[0]
    } else {
        join_space(s.drop_last()) + seq![' '] + s.last()
    }
}

/// The state of the first pass over a word: the block stack, the previous character,
/// the characters kept so far and the running character index.
pub struct ScanState {
    pub states: Seq<BashParserBlock>,
    pub prev: char,
    pub buf: Seq<char>,
    pub index: int,
}

pub enum ScanResult {
    Scanned(ScanState),
    Failed(ParserErrorCode, int),
}

/// Whether `c` is the quote character of the quote on the top of `s`.
pub open spec fn quote_char_on_top(s: Seq<BashParserBlock>, c: char) -> bool {
    (top_is(s, BashParserBlock::Quoted('"')) && c == '"') || (top_is(s, BashParserBlock::Quoted('\''))
        && c == '\'')
}

/// Reads one character `c` of a word (`next` is the following character, a space at the end).
/// A quote character that closes the quote on top (not escaped) or opens a quote (not after a
/// backslash) is dropped, and so is a backslash that escapes a double quote.
pub open spec fn scan_step(st: ScanState, c: char, next: char) -> ScanResult {
    let skip_close = quote_char_on_top(st.states, c) && !escaped(st.states);
    match spec_update(st.states, st.prev, c) {
        UpdateResult::Error(e) => ScanResult::Failed(e, st.index),
        UpdateResult::Next(s2) => {
            let skip_open = quote_char_on_top(s2, c) && st.prev != '\\';
            let skip_escape = escaped(s2) && c == '\\' && next == '"';
            ScanResult::Scanned(
                ScanState {
                    states: s2,
                    prev: c,
                    buf: if skip_close || skip_open || skip_escape { st.buf } else { st.buf.push(c) },
                    index: st.index + 1,
                },
            )
        },
    }
}

/// The character after position `i` of `word`, a space after the last one.
pub open spec fn next_char(word: Seq<char>, i: int) -> char {
    if i + 1 < word.len() { word[i + 1] } else { ' ' }
}

/// The first pass over the first `k` characters of `word`.
pub open spec fn scan_prefix(st0: ScanState, word: Seq<char>, k: nat) -> ScanResult
    decreases k,
{
    if k == 0 {
        ScanResult::Scanned(st0)
    } else {
        match scan_prefix(st0, word, (k - 1) as nat) {
            ScanResult::Scanned(st) => scan_step(st, word[k - 1], next_char(word, k - 1)),
            ScanResult::Failed(e, i) => ScanResult::Failed(e, i),
        }
    }
}

/// The state of the second pass over a word: the arguments split off so far, the rest of
/// the word, a pending two-character operator, whether the previous character was a
/// backslash, and whether the pass cut the word at a position outside it (or cut a word
/// that is not ASCII, where byte and character positions differ).
pub struct SplitState {
    pub pushed: Seq<Seq<char>>,
    pub cur: Seq<char>,
    pub remainder: Option<char>,
    pub escaped: bool,
    pub aborted: bool,
}

/// Splits the operator `op` off the rest of the word: the part before `lo` is pushed when not
/// empty, then `op`; the rest starts at `hi`.
pub open spec fn cut(st: SplitState, orig: Seq<char>, lo: int, hi: int, op: Seq<char>) -> SplitState {
    if st.aborted {
        st
    } else if lo < 0 || lo > st.cur.len() || hi > st.cur.len() || !is_ascii_seq(orig) {
        SplitState { aborted: true, ..st }
    } else {
        let part = st.cur.subrange(0, lo);
        SplitState {
            pushed: (if part.len() > 0 { st.pushed.push(part) } else { st.pushed }).push(op),
            cur: st.cur.subrange(hi, st.cur.len() as int),
            ..st
        }
    }
}

/// Reads character `i` of the word `orig` in the second pass.
pub open spec fn split_step(st: SplitState, orig: Seq<char>, i: int) -> SplitState {
    if st.aborted {
        st
    } else {
        let c = orig[i];
        let next: Option<char> = if i + 1 < orig.len() { Some(orig[i + 1]) } else { None };
        let st1 = match st.remainder {
            Some(prev) => {
                if prev == '&' && c == '&' {
                    cut(st, orig, i - 1, i + 1, seq!['&', '&'])
                } else if prev == '|' && c == '|' {
                    cut(st, orig, i - 1, i + 1, seq!['|', '|'])
                } else if prev == '>' && c == '>' {
                    cut(st, orig, i - 1, i + 1, seq!['>', '>'])
                } else if prev == '<' && c == '<' {
                    cut(st, orig, i - 1, i + 1, seq!['<', '<'])
                } else {
                    st
                }
            },
            None => {
                if !st.escaped {
                    let st_a = match next {
                        Some(n) => {
                            if c == '|' && n != '|' {
                                cut(st, orig, i, i + 1, seq!['|'])
                            } else if c == '|' && n == '|' {
                                SplitState { remainder: Some('|'), ..st }
                            } else if c == '>' && n != '>' {
                                cut(st, orig, i, i + 1, seq!['>'])
                            } else if c == '>' && n == '>' {
                                SplitState { remainder: Some('>'), ..st }
                            } else if c == '<' && n != '<' {
                                cut(st, orig, i, i + 1, seq!['<'])
                            } else if c == '<' && n == '<' {
                                SplitState { remainder: Some('<'), ..st }
                            } else if c == '&' && n == '&' {
                                SplitState { remainder: Some('&'), ..st }
                            } else if c == '&' && n != '&' {
                                cut(st, orig, i, i + 1, seq!['&'])
                            } else {
                                st
                            }
                        },
                        None => st,
                    };
                    if c == ';' {
                        cut(st_a, orig, i, i + 1, seq![';'])
                    } else {
                        st_a
                    }
                } else {
                    st
                }
            },
        };
        SplitState { escaped: c == '\\', ..st1 }
    }
}

/// The second pass over the first `k` characters of `orig`.
pub open spec fn split_prefix(orig: Seq<char>, k: nat) -> SplitState
    decreases k,
{
    if k == 0 {
        SplitState { pushed: Seq::empty(), cur: orig, remainder: None, escaped: false, aborted: false }
    } else {
        split_step(split_prefix(orig, (k - 1) as nat), orig, k - 1)
    }
}

/// The tokenizer state between words.
pub struct LineState {
    pub argv: Seq<Seq<char>>,
    pub states: Seq<BashParserBlock>,
    pub prev: char,
    pub buffer: Seq<Seq<char>>,
    pub index: int,
}

/// The outcome of tokenizing: the state reached, an error with the character index where it
/// was raised, or an input on which the tokenizer cuts a word out of its bounds.
pub enum ReadlineResult {
    Read(LineState),
    Failed(ParserErrorCode, int),
    Aborted,
}

/// Reads one word.
pub open spec fn word_step(st: LineState, word: Seq<char>) -> ReadlineResult {
    match scan_prefix(
        ScanState { states: st.states, prev: st.prev, buf: Seq::empty(), index: st.index },
        word,
        word.len(),
    ) {
        ScanResult::Failed(e, i) => ReadlineResult::Failed(e, i),
        ScanResult::Scanned(sc) => {
            let sp = split_prefix(sc.buf, sc.buf.len());
            if sc.buf.len() > 0 && sp.aborted {
                ReadlineResult::Aborted
            } else {
                let argv1 = if sc.buf.len() > 0 { st.argv + sp.pushed } else { st.argv };
                let buffer1 = if sc.buf.len() > 0 && sp.cur.len() > 0 {
                    st.buffer.push(sp.cur)
                } else {
                    st.buffer
                };
                if sc.states.len() == 0 && buffer1.len() > 0 {
                    ReadlineResult::Read(
                        LineState {
                            argv: argv1.push(join_space(buffer1)),
                            states: sc.states,
                            prev: sc.prev,
                            buffer: Seq::empty(),
                            index: sc.index + 1,
                        },
                    )
                } else {
                    ReadlineResult::Read(
                        LineState {
                            argv: argv1,
                            states: sc.states,
                            prev: sc.prev,
                            buffer: buffer1,
                            index: sc.index + 1,
                        },
                    )
                }
            }
        },
    }
}

/// Reads the first `k` words of `ws`.
pub open spec fn words_prefix(st: LineState, ws: Seq<Seq<char>>, k: nat) -> ReadlineResult
    decreases k,
{
    if k == 0 {
        ReadlineResult::Read(st)
    } else {
        match words_prefix(st, ws, (k - 1) as nat) {
            ReadlineResult::Read(s) => word_step(s, ws[k - 1]),
            other => other,
        }
    }
}

/// Reads line number `row`; every non-empty line after the first starts with a `;` argument.
pub open spec fn line_step(st: LineState, line: Seq<char>, row: int) -> ReadlineResult {
    let st1 = if row > 0 && line.len() > 0 { LineState { argv: st.argv.push(seq![';']), ..st } } else { st };
    words_prefix(st1, words(line), words(line).len())
}

/// The state before any input.
pub open spec fn initial_line_state() -> LineState {
    LineState { argv: Seq::empty(), states: Seq::empty(), prev: ' ', buffer: Seq::empty(), index: 0 }
}

/// Reads the first `k` lines of `lines`.
pub open spec fn lines_prefix(lines: Seq<Seq<char>>, k: nat) -> ReadlineResult
    decreases k,
{
    if k == 0 {
        ReadlineResult::Read(initial_line_state())
    } else {
        match lines_prefix(lines, (k - 1) as nat) {
            ReadlineResult::Read(s) => line_step(s, lines[k - 1], k - 1),
            other => other,
        }
    }
}

/// The tokenization of a whole input.
pub open spec fn spec_readline(input: Seq<char>) -> ReadlineResult {
    lines_prefix(split_lines(input), split_lines(input).len())
}

/// The character sequences of a vector of character vectors.
pub open spec fn vv(v: Seq<Vec<char>>) -> Seq<Seq<char>> {
    Seq::new(v.len(), |i: int| v[i]@)
}

/// The character sequences of a sequence of strings.
pub open spec fn sv(v: Seq<String>) -> Seq<Seq<char>> {
    Seq::new(v.len(), |i: int| v[i]@)
}


/// Total length of a sequence of lines.
pub open spec fn total_len(s: Seq<Seq<char>>) -> nat
    decreases s.len(),
{
    if s.len() == 0 { 0 } else { total_len(s.drop_last()) + s.last().len() }
}

/// Total length of a sequence of words, counting one more for each word.
pub open spec fn weight(s: Seq<Seq<char>>) -> nat
    decreases s.len(),
{
    if s.len() == 0 { 0 } else { weight(s.drop_last()) + s.last().len() + 1 }
}

proof fn lemma_split_lines_nonempty(s: Seq<char>)
    ensures
        split_lines(s).len() >= 1,
        total_len(split_lines(s)) <= s.len(),
    decreases s.len(),
{
    if s.len() == 0 {
        assert(split_lines(s).drop_last() =~= Seq::<Seq<char>>::empty());
        assert(total_len(Seq::<Seq<char>>::empty()) == 0);
        assert(split_lines(s).last().len() == 0);
        assert(total_len(split_lines(s)) == 0);
    } else {
        lemma_split_lines_nonempty(s.drop_last());
        let p = split_lines(s.drop_last());
        if s.last() == '\n' {
            assert(p.push(Seq::<char>::empty()).drop_last() =~= p);
            assert(total_len(p.push(Seq::<char>::empty())) == total_len(p));
        } else {
            let q = p.update(p.len() - 1, p.last().push(s.last()));
            assert(q.drop_last() =~= p.drop_last());
            assert(q.last() == p.last().push(s.last()));
            assert(total_len(q) == total_len(p.drop_last()) + p.last().len() + 1);
            assert(total_len(p) == total_len(p.drop_last()) + p.last().len());
        }
    }
}

proof fn lemma_total_len_take(s: Seq<Seq<char>>, k: int)
    requires
        0 <= k < s.len(),
    ensures
        total_len(s.take(k + 1)) == total_len(s.take(k)) + s[k].len(),
        total_len(s.take(k)) <= total_len(s),
    decreases s.len() - k,
{
    assert(s.take(k + 1).drop_last() =~= s.take(k));
    if k + 1 < s.len() {
        lemma_total_len_take(s, k + 1);
    } else {
        assert(s.take(k + 1) =~= s);
    }
}

proof fn lemma_weight_take(s: Seq<Seq<char>>, k: int)
    requires
        0 <= k < s.len(),
    ensures
        weight(s.take(k + 1)) == weight(s.take(k)) + s[k].len() + 1,
        weight(s.take(k)) <= weight(s),
    decreases s.len() - k,
{
    assert(s.take(k + 1).drop_last() =~= s.take(k));
    if k + 1 < s.len() {
        lemma_weight_take(s, k + 1);
    } else {
        assert(s.take(k + 1) =~= s);
    }
}

proof fn lemma_words_weight(s: Seq<char>)
    ensures
        weight(words(s)) <= 2 * s.len(),
        s.len() > 0 && !is_ws(s.last()) ==> words(s).len() > 0,
    decreases s.len(),
{
    if s.len() > 0 {
        lemma_words_weight(s.drop_last());
        let w = words(s.drop_last());
        let c = s.last();
        if is_ws(c) {
        } else if s.len() >= 2 && !is_ws(s[s.len() - 2]) {
            assert(s.drop_last().last() == s[s.len() - 2]);
            let q = w.update(w.len() - 1, w.last().push(c));
            assert(q.drop_last() =~= w.drop_last());
            assert(w.drop_last().push(w.last()) =~= w);
        } else {
            assert(w.push(seq![c]).drop_last() =~= w);
        }
    }
}

proof fn lemma_scan_index(st0: ScanState, word: Seq<char>, k: nat)
    requires
        k <= word.len(),
    ensures
        scan_prefix(st0, word, k) matches ScanResult::Scanned(sc) ==> sc.index == st0.index + k,
        scan_prefix(st0, word, k) matches ScanResult::Failed(e, i) ==> st0.index <= i < st0.index + k,
    decreases k,
{
    if k > 0 {
        lemma_scan_index(st0, word, (k - 1) as nat);
    }
}

proof fn lemma_split_aborted_mono(orig: Seq<char>, k: nat, k2: nat)
    requires
        k <= k2,
        split_prefix(orig, k).aborted,
    ensures
        split_prefix(orig, k2).aborted,
    decreases k2 - k,
{
    if k < k2 {
        lemma_split_aborted_mono(orig, k, (k2 - 1) as nat);
    }
}

proof fn lemma_words_prefix_mono(st: LineState, ws: Seq<Seq<char>>, k: nat, k2: nat)
    requires
        k <= k2,
        !(words_prefix(st, ws, k) is Read),
    ensures
        words_prefix(st, ws, k2) == words_prefix(st, ws, k),
    decreases k2 - k,
{
    if k < k2 {
        lemma_words_prefix_mono(st, ws, k, (k2 - 1) as nat);
    }
}

proof fn lemma_lines_prefix_mono(lines: Seq<Seq<char>>, k: nat, k2: nat)
    requires
        k <= k2,
        !(lines_prefix(lines, k) is Read),
    ensures
        lines_prefix(lines, k2) == lines_prefix(lines, k),
    decreases k2 - k,
{
    if k < k2 {
        lemma_lines_prefix_mono(lines, k, (k2 - 1) as nat);
    }
}

/// The lines of the input (`str::split("\n")`).
pub fn split_lines_exec(s: &Vec<char>) -> (r: Vec<Vec<char>>)
    ensures
        vv(r@) == split_lines(s@),
{
    let mut lines: Vec<Vec<char>> = Vec::new();
    let mut cur: Vec<char> = Vec::new();
    for i in 0..s.len()
        invariant
            vv(lines@).push(cur@) == split_lines(s@.subrange(0, i as int)),
    {
        let ghost pre = s@.subrange(0, i as int);
        assert(s@.subrange(0, i + 1).drop_last() =~= pre);
        assert(s@.subrange(0, i + 1).last() == s@[i as int]);
        if s[i] == '\n' {
            let ghost old_lines = vv(lines@);
            let ghost old_cur = cur@;
            lines.push(cur);
            cur = Vec::new();
            assert(vv(lines@).push(cur@) =~= old_lines.push(old_cur).push(Seq::<char>::empty()));
        } else {
            let ghost old_lines = vv(lines@);
            let ghost old_cur = cur@;
            cur.push(s[i]);
            assert(vv(lines@).push(cur@) =~= old_lines.push(old_cur).update(
                old_lines.len() as int, old_cur.push(s@[i as int])));
        }
    }
    assert(s@.subrange(0, s@.len() as int) =~= s@);
    let ghost old_lines = vv(lines@);
    lines.push(cur);
    assert(vv(lines@) =~= old_lines.push(cur@));
    lines
}

/// The words of a line (`str::split_whitespace`).
pub fn words_exec(s: &Vec<char>) -> (r: Vec<Vec<char>>)
    ensures
        vv(r@) == words(s@),
{
    let mut done: Vec<Vec<char>> = Vec::new();
    let mut cur: Vec<char> = Vec::new();
    for i in 0..s.len()
        invariant
            words(s@.subrange(0, i as int)) == (if cur@.len() > 0 { vv(done@).push(cur@) } else { vv(done@) }),
            cur@.len() > 0 <==> (i > 0 && !is_ws(s@[i - 1])),
    {
        let ghost pre = s@.subrange(0, i as int);
        let ghost pre1 = s@.subrange(0, i + 1);
        assert(pre1.drop_last() =~= pre);
        assert(pre1.last() == s@[i as int]);
        assert(i > 0 ==> pre1[pre1.len() - 2] == s@[i - 1]);
        let c = s[i];
        let ghost old_done = vv(done@);
        let ghost old_cur = cur@;
        if is_whitespace(c) {
            if cur.len() > 0 {
                done.push(cur);
                cur = Vec::new();
                assert(vv(done@) =~= old_done.push(old_cur));
            }
        } else {
            let was_empty = cur.len() == 0;
            cur.push(c);
            if !was_empty {
                assert(old_done.push(old_cur).update(old_done.len() as int, old_cur.push(c)) =~= vv(done@).push(cur@));
            } else {
                assert(cur@ =~= seq![c]);
                assert(old_done.push(seq![c]) =~= vv(done@).push(cur@));
            }
        }
    }
    assert(s@.subrange(0, s@.len() as int) =~= s@);
    if cur.len() > 0 {
        let ghost old_done = vv(done@);
        done.push(cur);
        assert(vv(done@) =~= old_done.push(cur@));
    }
    done
}


/// The first pass over a word: runs the block state machine over its characters and keeps
/// the characters that are not quote delimiters. On a bad token the error and the character
/// index are returned.
pub fn scan_word(states: &mut BashParserState, word: &Vec<char>, index: &mut u128) -> (r: Result<Vec<char>, (ParserErrorCode, u128)>)
    requires
        *old(index) + word@.len() < u128::MAX,
    ensures
        match scan_prefix(
            ScanState { states: old(states).states@, prev: old(states).previous_char, buf: Seq::empty(), index: *old(index) as int },
            word@,
            word@.len(),
        ) {
            ScanResult::Scanned(sc) => r is Ok && r->Ok_0@ == sc.buf && final(states).states@ == sc.states
                && final(states).previous_char == sc.prev && *final(index) == sc.index,
            ScanResult::Failed(e, i) => r is Err && r->Err_0.0 == e && r->Err_0.1 == i,
        },
{
    let ghost st0 = ScanState { states: states.states@, prev: states.previous_char, buf: Seq::empty(), index: *index as int };
    let ghost start = *index;
    let mut buf: Vec<char> = Vec::new();
    let n = word.len();
    for i in 0..n
        invariant
            n == word@.len(),
            start + n < u128::MAX,
            *index == start + i,
            st0.index == start,
            st0 == (ScanState { states: old(states).states@, prev: old(states).previous_char, buf: Seq::empty(), index: *old(index) as int }),
            scan_prefix(st0, word@, i as nat) == ScanResult::Scanned(
                ScanState { states: states.states@, prev: states.previous_char, buf: buf@, index: *index as int },
            ),
    {
        let c = word[i];
        let next = if i + 1 < n { word[i + 1] } else { ' ' };
        let mut skip_char = false;
        let prev_char = states.previous_char;
        if ((states.is_on_top(BashParserBlock::Quoted('"')) && c == '"') || (states.is_on_top(
            BashParserBlock::Quoted('\''),
        ) && c == '\'')) && !states.is_escaped() {
            skip_char = true;
        }
        if let Some(err) = states.update_state(c) {
            assert(scan_prefix(st0, word@, (i + 1) as nat) == ScanResult::Failed(err, *index as int));
            proof {
                lemma_scan_failed_mono(st0, word@, (i + 1) as nat, n as nat);
                assert(st0 == ScanState { states: old(states).states@, prev: old(states).previous_char, buf: Seq::empty(), index: *old(index) as int });
            }
            return Err((err, *index));
        }
        *index = *index + 1;
        if ((states.is_on_top(BashParserBlock::Quoted('"')) && c == '"') || (states.is_on_top(
            BashParserBlock::Quoted('\''),
        ) && c == '\'')) && prev_char != '\\' {
            skip_char = true;
        }
        if states.is_escaped() && c == '\\' && next == '"' {
            skip_char = true;
        }
        if !skip_char {
            buf.push(c);
        }
    }
    Ok(buf)
}

proof fn lemma_scan_failed_mono(st0: ScanState, word: Seq<char>, k: nat, k2: nat)
    requires
        k <= k2,
        scan_prefix(st0, word, k) is Failed,
    ensures
        scan_prefix(st0, word, k2) == scan_prefix(st0, word, k),
    decreases k2 - k,
{
    if k < k2 {
        lemma_scan_failed_mono(st0, word, k, (k2 - 1) as nat);
    }
}

/// A one-character operator.
fn op1(a: char) -> (r: Vec<char>)
    ensures
        r@ == seq![a],
{
    let mut r: Vec<char> = Vec::new();
    r.push(a);
    assert(r@ =~= seq![a]);
    r
}

/// A two-character operator.
fn op2(a: char, b: char) -> (r: Vec<char>)
    ensures
        r@ == seq![a, b],
{
    let mut r: Vec<char> = Vec::new();
    r.push(a);
    r.push(b);
    assert(r@ =~= seq![a, b]);
    r
}

/// The characters of `v` in `from..to`.
fn vec_range(v: &Vec<char>, from: usize, to: usize) -> (r: Vec<char>)
    requires
        from <= to <= v@.len(),
    ensures
        r@ == v@.subrange(from as int, to as int),
{
    let mut r: Vec<char> = Vec::new();
    for i in from..to
        invariant
            from <= i <= to <= v@.len(),
            r@ == v@.subrange(from as int, i as int),
    {
        r.push(v[i]);
        assert(r@ =~= v@.subrange(from as int, i + 1));
    }
    r
}

/// Splits the operator `op` off `cur`: the part before `lo` is pushed when not empty, then
/// `op`; `cur` becomes the part from `hi`.
fn do_cut(pushed: &mut Vec<Vec<char>>, cur: &mut Vec<char>, lo: usize, hi: usize, op: Vec<char>)
    requires
        lo <= old(cur)@.len(),
        hi <= old(cur)@.len(),
    ensures
        vv(final(pushed)@) == (if lo > 0 { vv(old(pushed)@).push(old(cur)@.subrange(0, lo as int)) } else { vv(old(pushed)@) }).push(op@),
        final(cur)@ == old(cur)@.subrange(hi as int, old(cur)@.len() as int),
{
    let ghost p0 = vv(pushed@);
    let part = vec_range(cur, 0, lo);
    if part.len() > 0 {
        pushed.push(part);
    }
    let ghost p1 = vv(pushed@);
    assert(p1 =~= (if lo > 0 { p0.push(old(cur)@.subrange(0, lo as int)) } else { p0 }));
    pushed.push(op);
    assert(vv(pushed@) =~= p1.push(op@));
    let n = cur.len();
    let rest = vec_range(cur, hi, n);
    *cur = rest;
}

/// Whether every character is ASCII.
fn all_ascii(v: &Vec<char>) -> (r: bool)
    ensures
        r == is_ascii_seq(v@),
{
    for i in 0..v.len()
        invariant
            forall|j: int| 0 <= j < i ==> (#[trigger] v@[j] as u32) < 128,
    {
        if (v[i] as u32) >= 128 {
            return false;
        }
    }
    true
}

/// The second pass over a word: splits off the operators. `None` when the pass would cut
/// the word out of its bounds, or cut a word that is not ASCII.
pub fn split_word(orig: &Vec<char>) -> (r: Option<(Vec<Vec<char>>, Vec<char>)>)
    ensures
        match r {
            Some(p) => !split_prefix(orig@, orig@.len()).aborted && vv(p.0@) == split_prefix(orig@, orig@.len()).pushed
                && p.1@ == split_prefix(orig@, orig@.len()).cur,
            None => split_prefix(orig@, orig@.len()).aborted,
        },
{
    let ascii = all_ascii(orig);
    let n = orig.len();
    let mut pushed: Vec<Vec<char>> = Vec::new();
    let mut cur: Vec<char> = vec_range(orig, 0, n);
    let mut remainder: Option<char> = None;
    let mut escaped = false;
    assert(vv(pushed@) =~= Seq::<Seq<char>>::empty());
    assert(cur@ =~= orig@);
    for i in 0..n
        invariant
            n == orig@.len(),
            ascii == is_ascii_seq(orig@),
            split_prefix(orig@, i as nat) == (SplitState {
                pushed: vv(pushed@),
                cur: cur@,
                remainder: remainder,
                escaped: escaped,
                aborted: false,
            }),
    {
        let ghost st = split_prefix(orig@, i as nat);
        let ghost post = split_prefix(orig@, (i + 1) as nat);
        assert(post == split_step(st, orig@, i as int));
        let c = orig[i];
        let next: Option<char> = if i + 1 < n { Some(orig[i + 1]) } else { None };
        if let Some(prev) = remainder {
            let pair = (prev == '&' && c == '&') || (prev == '|' && c == '|') || (prev == '>' && c == '>') || (prev == '<' && c == '<');
            if pair {
                if i < 1 || i - 1 > cur.len() || i + 1 > cur.len() || !ascii {
                    proof { lemma_split_aborted_mono(orig@, (i + 1) as nat, n as nat); }
                    return None;
                }
                do_cut(&mut pushed, &mut cur, i - 1, i + 1, op2(prev, c));
            }
        } else if !escaped {
            let ghost st_a_cur = cur@;
            let mut cut_here = false;
            if let Some(nx) = next {
                if c == '|' && nx == '|' {
                    remainder = Some('|');
                } else if c == '>' && nx == '>' {
                    remainder = Some('>');
                } else if c == '<' && nx == '<' {
                    remainder = Some('<');
                } else if c == '&' && nx == '&' {
                    remainder = Some('&');
                } else if c == '|' || c == '>' || c == '<' || c == '&' {
                    cut_here = true;
                }
            }
            if cut_here {
                if i > cur.len() || i + 1 > cur.len() || !ascii {
                    proof { lemma_split_aborted_mono(orig@, (i + 1) as nat, n as nat); }
                    return None;
                }
                do_cut(&mut pushed, &mut cur, i, i + 1, op1(c));
            }
            if c == ';' {
                if i > cur.len() || i + 1 > cur.len() || !ascii {
                    proof { lemma_split_aborted_mono(orig@, (i + 1) as nat, n as nat); }
                    return None;
                }
                do_cut(&mut pushed, &mut cur, i, i + 1, op1(';'));
            }
        }
        escaped = c == '\\';
        assert(split_prefix(orig@, (i + 1) as nat) == (SplitState {
            pushed: vv(pushed@),
            cur: cur@,
            remainder: remainder,
            escaped: escaped,
            aborted: false,
        }));
    }
    Some((pushed, cur))
}


/// The words of `buffer` joined by single spaces.
fn join_buffer(buffer: &Vec<Vec<char>>) -> (r: String)
    ensures
        r@ == join_space(vv(buffer@)),
{
    let mut r = String::new();
    let n = buffer.len();
    for i in 0..n
        invariant
            n == buffer@.len(),
            r@ == join_space(vv(buffer@).take(i as int)),
    {
        let ghost prev = vv(buffer@).take(i as int);
        let ghost next = vv(buffer@).take(i + 1);
        assert(next.drop_last() =~= prev);
        assert(next.last() == buffer@[i as int]@);
        if i > 0 {
            r.append(" ");
            proof { reveal_strlit(" "); }
        }
        let w = string_from_chars(&buffer[i]);
        r.append(w.as_str());
        assert(i == 0 ==> next =~= seq![buffer@[0]@]);
        assert(r@ =~= join_space(next));
    }
    assert(vv(buffer@).take(n as int) =~= vv(buffer@));
    r
}

/// The message of a tokenizer error raised at character `index`.
pub open spec fn error_message(index: int) -> Seq<char> {
    "bash: error at "@ + decimal_digits(index as nat)
}

/// The tokenizer state made of the current values.
pub open spec fn line_state_of(argv: Seq<String>, states: Seq<BashParserBlock>, prev: char, buffer: Seq<Vec<char>>, index: int) -> LineState {
    LineState { argv: sv(argv), states: states, prev: prev, buffer: vv(buffer), index: index }
}

/// Why a word could not be read: a bad token at a character index, or a cut out of the
/// word's bounds.
pub enum WordFault {
    Bad(ParserErrorCode, u128),
    OutOfBounds,
}

/// Reads one word: first pass, second pass, then the buffered words become one argument
/// once no block is open.
fn process_word(
    argv: &mut VecDeque<String>,
    states: &mut BashParserState,
    buffer: &mut Vec<Vec<char>>,
    index: &mut u128,
    word: &Vec<char>,
) -> (r: Result<(), WordFault>)
    requires
        *old(index) + word@.len() + 1 < u128::MAX,
    ensures
        match word_step(line_state_of(old(argv)@, old(states).states@, old(states).previous_char, old(buffer)@, *old(index) as int), word@) {
            ReadlineResult::Read(st) => r is Ok && st == line_state_of(final(argv)@, final(states).states@, final(states).previous_char, final(buffer)@, *final(index) as int),
            ReadlineResult::Failed(e, i) => r == Err::<(), WordFault>(WordFault::Bad(e, i as u128)) && 0 <= i < u128::MAX,
            ReadlineResult::Aborted => r == Err::<(), WordFault>(WordFault::OutOfBounds),
        },
        r is Ok ==> *final(index) == *old(index) + word@.len() + 1,
{
    let ghost st = line_state_of(argv@, states.states@, states.previous_char, buffer@, *index as int);
    let ghost sc0 = ScanState { states: states.states@, prev: states.previous_char, buf: Seq::empty(), index: *index as int };
    proof { lemma_scan_index(sc0, word@, word@.len()); }
    let buf = match scan_word(states, word, index) {
        Err(e) => {
            return Err(WordFault::Bad(e.0, e.1));
        },
        Ok(b) => b,
    };
    let ghost sc = ScanState { states: states.states@, prev: states.previous_char, buf: buf@, index: *index as int };
    assert(scan_prefix(sc0, word@, word@.len()) == ScanResult::Scanned(sc));
    let ghost sp = split_prefix(buf@, buf@.len());
    if buf.len() > 0 {
        let (pushed, cur) = match split_word(&buf) {
            Some(p) => p,
            None => {
                return Err(WordFault::OutOfBounds);
            },
        };
        let n = pushed.len();
        for j in 0..n
            invariant
                n == pushed@.len(),
                sv(argv@) == st.argv + vv(pushed@).take(j as int),
        {
            let ghost a0 = sv(argv@);
            let s = string_from_chars(&pushed[j]);
            argv.push_back(s);
            assert(sv(argv@) =~= a0.push(pushed@[j as int]@));
            assert(vv(pushed@).take(j + 1) =~= vv(pushed@).take(j as int).push(pushed@[j as int]@));
            assert(st.argv + vv(pushed@).take(j + 1) =~= (st.argv + vv(pushed@).take(j as int)).push(pushed@[j as int]@));
        }
        assert(vv(pushed@).take(n as int) =~= vv(pushed@));
        if cur.len() > 0 {
            let ghost b0 = vv(buffer@);
            buffer.push(cur);
            assert(vv(buffer@) =~= b0.push(sp.cur));
        }
    }
    *index = *index + 1;
    if states.empty() && buffer.len() > 0 {
        let joined = join_buffer(buffer);
        let ghost a0 = sv(argv@);
        argv.push_back(joined);
        assert(sv(argv@) =~= a0.push(joined@));
        buffer.clear();
        assert(vv(buffer@) =~= Seq::<Seq<char>>::empty());
    }
    Ok(())
}

/// Splits a Bash input into arguments (see the module documentation). The error of a bad
/// token carries the index of the character where it was found; an input on which the
/// operator split would leave a word's bounds is refused as a bad token.
pub fn tokenize(input: &String) -> (r: Result<VecDeque<String>, ParserError>)
    ensures
        match spec_readline(input@) {
            ReadlineResult::Read(st) => r is Ok && sv(r->Ok_0@) == st.argv,
            ReadlineResult::Failed(e, i) => r is Err && r->Err_0.code == e && r->Err_0.message@ == error_message(i),
            ReadlineResult::Aborted => r is Err && r->Err_0.code == ParserErrorCode::BadToken,
        },
{
    let chars = crate::text::chars_of(input.as_str());
    let nchars = chars.len();
    let lines = split_lines_exec(&chars);
    let ghost big_l = split_lines(input@);
    proof { lemma_split_lines_nonempty(input@); }
    let mut argv: VecDeque<String> = VecDeque::new();
    let mut states = BashParserState::new();
    let mut buffer: Vec<Vec<char>> = Vec::new();
    let mut index: u128 = 0;
    assert(lines_prefix(big_l, 0) == ReadlineResult::Read(line_state_of(argv@, states.states@, states.previous_char, buffer@, index as int))) by {
        assert(sv(argv@) =~= Seq::<Seq<char>>::empty());
        assert(vv(buffer@) =~= Seq::<Seq<char>>::empty());
    }
    assert(big_l.take(0) =~= Seq::<Seq<char>>::empty());
    let nl = lines.len();
    for row in 0..nl
        invariant
            nl == lines@.len(),
            vv(lines@) == big_l,
            big_l == split_lines(input@),
            total_len(big_l) <= input@.len(),
            input@.len() == chars@.len(),
            nchars == chars@.len(),
            lines_prefix(big_l, row as nat) == ReadlineResult::Read(line_state_of(argv@, states.states@, states.previous_char, buffer@, index as int)),
            index <= 2 * total_len(big_l.take(row as int)),
    {
        proof {
            lemma_total_len_take(big_l, row as int);
            if row + 1 < big_l.len() {
                lemma_total_len_take(big_l, row + 1);
            } else {
                assert(big_l.take(row + 1) =~= big_l);
            }
        }
        let ghost st = line_state_of(argv@, states.states@, states.previous_char, buffer@, index as int);
        let line = &lines[row];
        assert(line@ == big_l[row as int]);
        if row > 0 && line.len() > 0 {
            let ghost a0 = sv(argv@);
            proof { reveal_strlit(";"); }
            let semi = owned(";");
            assert(semi@ =~= seq![';']);
            argv.push_back(semi);
            assert(sv(argv@) =~= a0.push(seq![';']));
        }
        let ghost st1 = line_state_of(argv@, states.states@, states.previous_char, buffer@, index as int);
        assert(st1 == (if row > 0 && line@.len() > 0 { LineState { argv: st.argv.push(seq![';']), ..st } } else { st }));
        let ws = words_exec(line);
        let ghost big_w = words(line@);
        proof { lemma_words_weight(line@); }
        assert(big_w.take(0) =~= Seq::<Seq<char>>::empty());
        let nw = ws.len();
        for k in 0..nw
            invariant
                nw == ws@.len(),
                vv(ws@) == big_w,
                big_w == words(line@),
                line@ == big_l[row as int],
                0 <= row < big_l.len(),
                vv(lines@) == big_l,
                big_l == split_lines(input@),
                    lines_prefix(big_l, row as nat) == ReadlineResult::Read(st),
                line_step(st, line@, row as int) == words_prefix(st1, big_w, big_w.len()),
                words_prefix(st1, big_w, k as nat) == ReadlineResult::Read(line_state_of(argv@, states.states@, states.previous_char, buffer@, index as int)),
                index <= 2 * total_len(big_l.take(row as int)) + weight(big_w.take(k as int)),
                weight(big_w) <= 2 * line@.len(),
                total_len(big_l.take(row as int)) + line@.len() <= total_len(big_l),
                total_len(big_l) <= input@.len(),
                input@.len() == chars@.len(),
                nchars == chars@.len(),
        {
            proof {
                lemma_weight_take(big_w, k as int);
                if k + 1 < big_w.len() {
                    lemma_weight_take(big_w, k + 1);
                } else {
                    assert(big_w.take(k + 1) =~= big_w);
                }
            }
            let word = &ws[k];
            assert(word@ == big_w[k as int]);
            assert(index + word@.len() + 1 <= 2 * total_len(big_l.take(row as int)) + weight(big_w.take(k + 1)));
            assert(index + word@.len() + 1 <= 2 * nchars);
            let ghost cur_st = line_state_of(argv@, states.states@, states.previous_char, buffer@, index as int);
            assert(words_prefix(st1, big_w, (k + 1) as nat) == word_step(cur_st, word@));
            proof {
                if !(word_step(cur_st, word@) is Read) {
                    lemma_words_prefix_mono(st1, big_w, (k + 1) as nat, big_w.len());
                    assert(lines_prefix(big_l, (row + 1) as nat) == line_step(st, big_l[row as int], row as int));
                    lemma_lines_prefix_mono(big_l, (row + 1) as nat, big_l.len());
                }
            }
            match process_word(&mut argv, &mut states, &mut buffer, &mut index, word) {
                Err(WordFault::Bad(e, i)) => {
                    return Err(ParserError::new(e, owned("bash: error at ").concat(u128_to_string(i).as_str())));
                },
                Err(WordFault::OutOfBounds) => {
                    return Err(ParserError::new(ParserErrorCode::BadToken, owned("bash: error at ").concat(u128_to_string(index).as_str())));
                },
                Ok(()) => {},
            }
        }
        assert(big_w.take(nw as int) =~= big_w);
        assert(lines_prefix(big_l, (row + 1) as nat) == line_step(st, big_l[row as int], row as int));
    }
    assert(big_l.take(nl as int) =~= big_l);
    Ok(argv)
}

/// Every sequence of a list is non-empty.
pub open spec fn all_nonempty(s: Seq<Seq<char>>) -> bool {
    forall|i: int| 0 <= i < s.len() ==> (#[trigger] s[i]).len() > 0
}

proof fn lemma_split_pushed_nonempty(orig: Seq<char>, k: nat)
    ensures
        all_nonempty(split_prefix(orig, k).pushed),
    decreases k,
{
    if k > 0 {
        lemma_split_pushed_nonempty(orig, (k - 1) as nat);
        let st = split_prefix(orig, (k - 1) as nat);
        let i = k - 1;
        let post = split_step(st, orig, i);
        assert forall|j: int| 0 <= j < post.pushed.len() implies (#[trigger] post.pushed[j]).len() > 0 by {
            if j < st.pushed.len() {
                assert(post.pushed.len() >= st.pushed.len());
            }
        }
    }
}

proof fn lemma_join_nonempty(s: Seq<Seq<char>>)
    requires
        s.len() > 0,
        all_nonempty(s),
    ensures
        join_space(s).len() > 0,
    decreases s.len(),
{
    if s.len() > 1 {
        assert(s.last().len() > 0);
    } else {
        assert(s[0].len() > 0);
    }
}

proof fn lemma_word_step_nonempty(st: LineState, word: Seq<char>)
    requires
        all_nonempty(st.argv),
        all_nonempty(st.buffer),
    ensures
        word_step(st, word) matches ReadlineResult::Read(s2) ==> all_nonempty(s2.argv) && all_nonempty(s2.buffer),
{
    match scan_prefix(ScanState { states: st.states, prev: st.prev, buf: Seq::empty(), index: st.index }, word, word.len()) {
        ScanResult::Failed(_, _) => {},
        ScanResult::Scanned(sc) => {
            let sp = split_prefix(sc.buf, sc.buf.len());
            lemma_split_pushed_nonempty(sc.buf, sc.buf.len());
            let argv1 = if sc.buf.len() > 0 { st.argv + sp.pushed } else { st.argv };
            let buffer1 = if sc.buf.len() > 0 && sp.cur.len() > 0 { st.buffer.push(sp.cur) } else { st.buffer };
            assert(all_nonempty(argv1)) by {
                assert forall|j: int| 0 <= j < argv1.len() implies (#[trigger] argv1[j]).len() > 0 by {
                    if sc.buf.len() > 0 && j >= st.argv.len() {
                        assert(argv1[j] == sp.pushed[j - st.argv.len()]);
                    }
                }
            }
            assert(all_nonempty(buffer1));
            if sc.states.len() == 0 && buffer1.len() > 0 {
                lemma_join_nonempty(buffer1);
                let a2 = argv1.push(join_space(buffer1));
                assert(all_nonempty(a2)) by {
                    assert forall|j: int| 0 <= j < a2.len() implies (#[trigger] a2[j]).len() > 0 by {
                        if j < argv1.len() {
                            assert(a2[j] == argv1[j]);
                        }
                    }
                }
                assert(all_nonempty(Seq::<Seq<char>>::empty()));
            }
        },
    }
}

proof fn lemma_words_prefix_nonempty(st: LineState, ws: Seq<Seq<char>>, k: nat)
    requires
        all_nonempty(st.argv),
        all_nonempty(st.buffer),
    ensures
        words_prefix(st, ws, k) matches ReadlineResult::Read(s2) ==> all_nonempty(s2.argv) && all_nonempty(s2.buffer),
    decreases k,
{
    if k > 0 {
        lemma_words_prefix_nonempty(st, ws, (k - 1) as nat);
        match words_prefix(st, ws, (k - 1) as nat) {
            ReadlineResult::Read(s) => {
                lemma_word_step_nonempty(s, ws[k - 1]);
            },
            _ => {},
        }
    }
}

proof fn lemma_lines_prefix_nonempty(lines: Seq<Seq<char>>, k: nat)
    ensures
        lines_prefix(lines, k) matches ReadlineResult::Read(s2) ==> all_nonempty(s2.argv) && all_nonempty(s2.buffer),
    decreases k,
{
    if k == 0 {
        assert(all_nonempty(initial_line_state().argv));
        assert(all_nonempty(initial_line_state().buffer));
    } else {
        lemma_lines_prefix_nonempty(lines, (k - 1) as nat);
        match lines_prefix(lines, (k - 1) as nat) {
            ReadlineResult::Read(s) => {
                let line = lines[k - 1];
                let row = k - 1;
                let st1 = if row > 0 && line.len() > 0 { LineState { argv: s.argv.push(seq![';']), ..s } } else { s };
                assert(all_nonempty(st1.argv)) by {
                    assert forall|j: int| 0 <= j < st1.argv.len() implies (#[trigger] st1.argv[j]).len() > 0 by {
                        if j < s.argv.len() {
                            assert(st1.argv[j] == s.argv[j]);
                        }
                    }
                }
                lemma_words_prefix_nonempty(st1, words(line), words(line).len());
            },
            _ => {},
        }
    }
}

/// Law: the tokenizer never yields an empty argument.
pub proof fn law_arguments_are_not_empty(input: Seq<char>)
    ensures
        spec_readline(input) matches ReadlineResult::Read(st) ==> all_nonempty(st.argv),
{
    lemma_lines_prefix_nonempty(split_lines(input), split_lines(input).len());
}

/// A character with no meaning to the tokenizer: no whitespace, quote, backslash,
/// backquote, parenthesis or operator character.
pub open spec fn plain_char(c: char) -> bool {
    !is_ws(c) && c != '"' && c != '\'' && c != '\\' && c != '`' && c != '(' && c != ')' && c != '|'
        && c != '&' && c != ';' && c != '<' && c != '>'
}

/// A word of plain characters.
pub open spec fn plain_word(w: Seq<char>) -> bool {
    w.len() > 0 && forall|i: int| 0 <= i < w.len() ==> plain_char(#[trigger] w[i])
}

/// A text without a newline is one line.
proof fn lemma_split_lines_one_line(s: Seq<char>)
    requires
        forall|i: int| 0 <= i < s.len() ==> #[trigger] s[i] != '\n',
    ensures
        split_lines(s) == seq![s],
    decreases s.len(),
{
    if s.len() > 0 {
        assert(s[s.len() - 1] != '\n');
        lemma_split_lines_one_line(s.drop_last());
        assert(s.drop_last().push(s.last()) =~= s);
        assert(seq![s.drop_last()].update(0, s.drop_last().push(s.last())) =~= seq![s]);
    } else {
        assert(s =~= Seq::<char>::empty());
    }
}

/// A trailing space adds no word.
proof fn lemma_words_trailing_space(x: Seq<char>)
    ensures
        words(x.push(' ')) == words(x),
{
    assert(x.push(' ').drop_last() =~= x);
}

/// A run of non-whitespace characters after whitespace (or at the start) is one more word.
proof fn lemma_words_append_word(x: Seq<char>, b: Seq<char>)
    requires
        x.len() == 0 || is_ws(x.last()),
        b.len() > 0,
        forall|i: int| 0 <= i < b.len() ==> !is_ws(#[trigger] b[i]),
    ensures
        words(x + b) == words(x).push(b),
    decreases b.len(),
{
    let s = x + b;
    let c = b.last();
    assert(s.last() == c);
    assert(!is_ws(b[b.len() - 1]));
    if b.len() == 1 {
        assert(s.drop_last() =~= x);
        assert(b =~= seq![c]);
        if s.len() >= 2 {
            assert(s[s.len() - 2] == x.last());
        }
    } else {
        let b1 = b.drop_last();
        assert forall|i: int| 0 <= i < b1.len() implies !is_ws(#[trigger] b1[i]) by {
            assert(b1[i] == b[i]);
        }
        lemma_words_append_word(x, b1);
        assert(s.drop_last() =~= x + b1);
        assert(s[s.len() - 2] == b1.last());
        assert(!is_ws(b[b.len() - 2]));
        let w = words(x + b1);
        assert(w == words(x).push(b1));
        assert(b1.push(c) =~= b);
        assert(w.last() == b1);
        assert(w.update(w.len() - 1, w.last().push(c)) =~= words(x).push(b));
    }
}

/// Every character of solid words joined by spaces is a space or no whitespace.
proof fn lemma_join_space_chars(ws: Seq<Seq<char>>)
    requires
        forall|i: int| 0 <= i < ws.len() ==> solid_word(#[trigger] ws[i]),
    ensures
        forall|j: int| 0 <= j < join_space(ws).len() ==> (#[trigger] join_space(ws)[j] == ' ' || !is_ws(join_space(ws)[j])),
    decreases ws.len(),
{
    if ws.len() == 1 {
        assert(solid_word(ws[0]));
    } else if ws.len() > 1 {
        let front = ws.drop_last();
        assert forall|i: int| 0 <= i < front.len() implies solid_word(#[trigger] front[i]) by {
            assert(front[i] == ws[i]);
        }
        lemma_join_space_chars(front);
        let j0 = join_space(front);
        let last = ws.last();
        assert(solid_word(ws[ws.len() - 1]));
        assert forall|j: int| 0 <= j < join_space(ws).len() implies (#[trigger] join_space(ws)[j] == ' ' || !is_ws(join_space(ws)[j])) by {
            let whole = j0 + seq![' '] + last;
            assert(join_space(ws) == whole);
            if j < j0.len() {
                assert(whole[j] == j0[j]);
            } else if j == j0.len() {
                assert(whole[j] == ' ');
            } else {
                assert(whole[j] == last[j - j0.len() - 1]);
            }
        }
    }
}

/// A word with no whitespace in it.
pub open spec fn solid_word(w: Seq<char>) -> bool {
    w.len() > 0 && forall|i: int| 0 <= i < w.len() ==> !is_ws(#[trigger] w[i])
}

/// The words of solid words joined by spaces are those words.
proof fn lemma_words_of_join(ws: Seq<Seq<char>>)
    requires
        forall|i: int| 0 <= i < ws.len() ==> solid_word(#[trigger] ws[i]),
    ensures
        words(join_space(ws)) == ws,
    decreases ws.len(),
{
    if ws.len() == 1 {
        let w = ws[0];
        assert(solid_word(w));
        lemma_words_append_word(Seq::empty(), w);
        assert(Seq::<char>::empty() + w =~= w);
        assert(Seq::<Seq<char>>::empty().push(w) =~= ws);
    } else if ws.len() > 1 {
        let front = ws.drop_last();
        assert forall|i: int| 0 <= i < front.len() implies solid_word(#[trigger] front[i]) by {
            assert(front[i] == ws[i]);
        }
        lemma_words_of_join(front);
        let j0 = join_space(front);
        lemma_words_trailing_space(j0);
        let last = ws.last();
        assert(solid_word(ws[ws.len() - 1]));
        assert(j0.push(' ') =~= j0 + seq![' ']);
        lemma_words_append_word(j0.push(' '), last);
        assert(join_space(ws) == j0.push(' ') + last);
        assert(front.push(last) =~= ws);
    }
}

/// Plain words are solid.
proof fn lemma_plain_words_are_solid(ws: Seq<Seq<char>>)
    requires
        forall|i: int| 0 <= i < ws.len() ==> plain_word(#[trigger] ws[i]),
    ensures
        forall|i: int| 0 <= i < ws.len() ==> solid_word(#[trigger] ws[i]),
{
    assert forall|i: int| 0 <= i < ws.len() implies solid_word(#[trigger] ws[i]) by {
        assert(plain_word(ws[i]));
        assert forall|j: int| 0 <= j < ws[i].len() implies !is_ws(#[trigger] ws[i][j]) by {
            assert(plain_char(ws[i][j]));
        }
    }
}

/// A character the block state machine ignores out of quotes: no backslash, quote,
/// backquote or parenthesis.
pub open spec fn scan_neutral(c: char) -> bool {
    c != '"' && c != '\'' && c != '\\' && c != '`' && c != '(' && c != ')'
}

/// Scanning neutral characters keeps them all and leaves the stack empty.
proof fn lemma_scan_neutral(st0: ScanState, word: Seq<char>, k: nat)
    requires
        st0.states.len() == 0,
        k <= word.len(),
        forall|i: int| 0 <= i < word.len() ==> scan_neutral(#[trigger] word[i]),
    ensures
        scan_prefix(st0, word, k) matches ScanResult::Scanned(st) && st.states.len() == 0 && st.buf == st0.buf + word.take(k as int)
            && st.index == st0.index + k,
    decreases k,
{
    if k == 0 {
        assert(st0.buf + word.take(0) =~= st0.buf);
    } else {
        lemma_scan_neutral(st0, word, (k - 1) as nat);
        let c = word[k - 1];
        assert(scan_neutral(c));
        assert(st0.buf + word.take(k - 1) + seq![c] =~= st0.buf + word.take(k as int));
    }
}

/// Splitting plain characters splits nothing off.
proof fn lemma_split_plain(orig: Seq<char>, k: nat)
    requires
        k <= orig.len(),
        forall|i: int| 0 <= i < orig.len() ==> plain_char(#[trigger] orig[i]),
    ensures
        split_prefix(orig, k) == (SplitState { pushed: Seq::empty(), cur: orig, remainder: None, escaped: false, aborted: false }),
    decreases k,
{
    if k > 0 {
        lemma_split_plain(orig, (k - 1) as nat);
        assert(plain_char(orig[k - 1]));
    }
}

/// An operator word: `&&`, `||`, `|`, `;`, `&`, `>`, `>>`, `<`, `<<`.
pub open spec fn operator_word(w: Seq<char>) -> bool {
    w == seq!['&', '&'] || w == seq!['|', '|'] || w == seq!['|'] || w == seq![';'] || w == seq!['&']
        || w == seq!['>'] || w == seq!['>', '>'] || w == seq!['<'] || w == seq!['<', '<']
}

/// A word the tokenizer reads back as it is: a plain word or an operator word.
pub open spec fn token_word(w: Seq<char>) -> bool {
    plain_word(w) || operator_word(w)
}

/// Token words are solid.
proof fn lemma_token_words_are_solid(ws: Seq<Seq<char>>)
    requires
        forall|i: int| 0 <= i < ws.len() ==> token_word(#[trigger] ws[i]),
    ensures
        forall|i: int| 0 <= i < ws.len() ==> solid_word(#[trigger] ws[i]),
{
    assert forall|i: int| 0 <= i < ws.len() implies solid_word(#[trigger] ws[i]) by {
        let w = ws[i];
        assert(token_word(w));
        assert forall|j: int| 0 <= j < w.len() implies !is_ws(#[trigger] w[j]) by {
            if plain_word(w) {
                assert(plain_char(w[j]));
            }
        }
    }
}

/// Reading an operator word out of quotes gives it as an argument.
proof fn lemma_word_step_operator(st: LineState, w: Seq<char>)
    requires
        st.states.len() == 0,
        st.buffer.len() == 0,
        operator_word(w),
    ensures
        word_step(st, w) matches ReadlineResult::Read(s2) && s2.argv == st.argv.push(w) && s2.states.len() == 0
            && s2.buffer.len() == 0,
{
    let sc0 = ScanState { states: st.states, prev: st.prev, buf: Seq::empty(), index: st.index };
    assert forall|i: int| 0 <= i < w.len() implies scan_neutral(#[trigger] w[i]) by {}
    lemma_scan_neutral(sc0, w, w.len());
    assert(Seq::<char>::empty() + w.take(w.len() as int) =~= w);
    assert(is_ascii_seq(w)) by {
        assert forall|i: int| 0 <= i < w.len() implies (#[trigger] w[i] as u32) < 128 by {}
    }
    reveal_with_fuel(split_prefix, 3);
    let sp = split_prefix(w, w.len());
    if w.len() == 2 {
        assert(w.subrange(0, 0) =~= Seq::<char>::empty());
        assert(w.subrange(2, 2) =~= Seq::<char>::empty());
        assert(sp.pushed =~= seq![w]);
        assert(sp.cur.len() == 0);
        assert(st.argv + seq![w] =~= st.argv.push(w));
    } else if w == seq![';'] {
        assert(w.subrange(0, 0) =~= Seq::<char>::empty());
        assert(w.subrange(1, 1) =~= Seq::<char>::empty());
        assert(sp.pushed =~= seq![w]);
        assert(sp.cur.len() == 0);
        assert(st.argv + seq![w] =~= st.argv.push(w));
    } else {
        assert(sp.pushed.len() == 0);
        assert(sp.cur == w);
        assert(st.argv + sp.pushed =~= st.argv);
        assert(join_space(st.buffer.push(w)) == w);
    }
}

/// Reading token words out of quotes, each of them becomes one argument.
proof fn lemma_words_prefix_tokens(st: LineState, ws: Seq<Seq<char>>, k: nat)
    requires
        st.states.len() == 0,
        st.buffer.len() == 0,
        k <= ws.len(),
        forall|i: int| 0 <= i < ws.len() ==> token_word(#[trigger] ws[i]),
    ensures
        words_prefix(st, ws, k) matches ReadlineResult::Read(s2) && s2.argv == st.argv + ws.take(k as int)
            && s2.states.len() == 0 && s2.buffer.len() == 0,
    decreases k,
{
    if k == 0 {
        assert(st.argv + ws.take(0) =~= st.argv);
    } else {
        lemma_words_prefix_tokens(st, ws, (k - 1) as nat);
        let s = match words_prefix(st, ws, (k - 1) as nat) {
            ReadlineResult::Read(s) => s,
            _ => st,
        };
        let w = ws[k - 1];
        assert(token_word(w));
        if operator_word(w) {
            lemma_word_step_operator(s, w);
        } else {
            assert(plain_word(w));
            let sc0 = ScanState { states: s.states, prev: s.prev, buf: Seq::empty(), index: s.index };
            assert forall|i: int| 0 <= i < w.len() implies scan_neutral(#[trigger] w[i]) by {
                assert(plain_char(w[i]));
            }
            lemma_scan_neutral(sc0, w, w.len());
            assert(Seq::<char>::empty() + w.take(w.len() as int) =~= w);
            lemma_split_plain(w, w.len());
            assert(s.argv + Seq::<Seq<char>>::empty() =~= s.argv);
            assert(join_space(Seq::<Seq<char>>::empty().push(w)) == w);
        }
        assert(s.argv.push(w) =~= st.argv + ws.take(k as int));
    }
}

/// Law: words that are plain (no whitespace, quotes, backslashes, backquotes,
/// parentheses or operator characters) or operators (`&&`, `||`, `|`, `;`, `&`, `>`,
/// `>>`, `<`, `<<`), joined by single spaces, are read back as exactly those words.
pub proof fn law_words_read_back(ws: Seq<Seq<char>>)
    requires
        forall|i: int| 0 <= i < ws.len() ==> token_word(#[trigger] ws[i]),
    ensures
        spec_readline(join_space(ws)) matches ReadlineResult::Read(st) && st.argv == ws,
{
    let line = join_space(ws);
    lemma_token_words_are_solid(ws);
    lemma_join_space_chars(ws);
    assert forall|i: int| 0 <= i < line.len() implies #[trigger] line[i] != '\n' by {
        assert(line[i] == ' ' || !is_ws(line[i]));
    }
    lemma_split_lines_one_line(line);
    lemma_words_of_join(ws);
    lemma_words_prefix_tokens(initial_line_state(), ws, ws.len());
    assert(Seq::<Seq<char>>::empty() + ws.take(ws.len() as int) =~= ws);
    let lines = split_lines(line);
    assert(lines == seq![line]);
    assert(lines[0] == line);
    assert(lines_prefix(lines, 0) == ReadlineResult::Read(initial_line_state()));
    assert(line_step(initial_line_state(), line, 0) == words_prefix(initial_line_state(), words(line), words(line).len()));
    assert(lines_prefix(lines, 1) == line_step(initial_line_state(), lines[0], 0));
}

/// The words of a double-quoted group of words: the first opens the quote, the last
/// closes it.
pub open spec fn quote_words(ws: Seq<Seq<char>>) -> Seq<Seq<char>> {
    let opened = ws.update(0, seq!['"'] + ws[0]);
    opened.update(opened.len() - 1, opened.last() + seq!['"'])
}

/// Putting text before the first word puts it before the joined words.
proof fn lemma_join_space_prefix(ws: Seq<Seq<char>>, p: Seq<char>)
    requires
        ws.len() >= 1,
    ensures
        join_space(ws.update(0, p + ws[0])) == p + join_space(ws),
    decreases ws.len(),
{
    let u = ws.update(0, p + ws[0]);
    if ws.len() >= 2 {
        let front = ws.drop_last();
        assert(front[0] == ws[0]);
        lemma_join_space_prefix(front, p);
        assert(u.drop_last() =~= front.update(0, p + front[0]));
        assert(u.last() == ws.last());
        assert(p + join_space(front) + seq![' '] + ws.last() =~= p + (join_space(front) + seq![' '] + ws.last()));
    }
}

/// Putting text after the last word puts it after the joined words.
proof fn lemma_join_space_suffix(ws: Seq<Seq<char>>, t: Seq<char>)
    requires
        ws.len() >= 1,
    ensures
        join_space(ws.update(ws.len() - 1, ws.last() + t)) == join_space(ws) + t,
{
    let u = ws.update(ws.len() - 1, ws.last() + t);
    if ws.len() >= 2 {
        assert(u.drop_last() =~= ws.drop_last());
        assert(join_space(ws.drop_last()) + seq![' '] + (ws.last() + t) =~= join_space(ws.drop_last()) + seq![' '] + ws.last() + t);
    }
}

/// The words of a quoted group, one by one.
proof fn lemma_quote_words_shape(ws: Seq<Seq<char>>)
    requires
        ws.len() >= 1,
    ensures
        quote_words(ws).len() == ws.len(),
        ws.len() == 1 ==> quote_words(ws)[0] == seq!['"'] + ws[0] + seq!['"'],
        ws.len() >= 2 ==> quote_words(ws)[0] == seq!['"'] + ws[0],
        ws.len() >= 2 ==> quote_words(ws)[ws.len() - 1] == ws.last() + seq!['"'],
        forall|i: int| 0 < i < ws.len() - 1 ==> #[trigger] quote_words(ws)[i] == ws[i],
{
}

/// Reading an opening double quote and then plain characters: the quote is dropped and
/// the characters kept.
proof fn lemma_scan_opening(st0: ScanState, word: Seq<char>, k: nat)
    requires
        st0.states.len() == 0,
        st0.prev != '\\',
        word.len() >= 1,
        word[0] == '"',
        1 <= k <= word.len(),
        forall|i: int| 1 <= i < k ==> plain_char(#[trigger] word[i]),
    ensures
        scan_prefix(st0, word, k) matches ScanResult::Scanned(st) && st.states == seq![BashParserBlock::Quoted('"')]
            && st.buf == st0.buf + word.subrange(1, k as int),
    decreases k,
{
    let q = seq![BashParserBlock::Quoted('"')];
    if k == 1 {
        assert(st0.states =~= Seq::<BashParserBlock>::empty());
        assert(Seq::<BashParserBlock>::empty().push(BashParserBlock::Quoted('"')) =~= q);
        assert(q.last() == BashParserBlock::Quoted('"'));
        assert(st0.buf + word.subrange(1, 1) =~= st0.buf);
    } else {
        lemma_scan_opening(st0, word, (k - 1) as nat);
        let c = word[k - 1];
        assert(plain_char(c));
        assert(q.last() == BashParserBlock::Quoted('"'));
        assert(st0.buf + word.subrange(1, k - 1) + seq![c] =~= st0.buf + word.subrange(1, k as int));
    }
}

/// Reading plain characters inside a double quote keeps them and the quote.
proof fn lemma_scan_quoted(st0: ScanState, word: Seq<char>, k: nat)
    requires
        st0.states == seq![BashParserBlock::Quoted('"')],
        k <= word.len(),
        forall|i: int| 0 <= i < k ==> plain_char(#[trigger] word[i]),
    ensures
        scan_prefix(st0, word, k) matches ScanResult::Scanned(st) && st.states == seq![BashParserBlock::Quoted('"')]
            && st.buf == st0.buf + word.take(k as int),
    decreases k,
{
    let q = seq![BashParserBlock::Quoted('"')];
    assert(q.last() == BashParserBlock::Quoted('"'));
    if k == 0 {
        assert(st0.buf + word.take(0) =~= st0.buf);
    } else {
        lemma_scan_quoted(st0, word, (k - 1) as nat);
        let c = word[k - 1];
        assert(plain_char(c));
        assert(st0.buf + word.take(k - 1) + seq![c] =~= st0.buf + word.take(k as int));
    }
}

/// A double quote inside a double quote closes it and is dropped.
proof fn lemma_scan_closing(st: ScanState, next: char)
    requires
        st.states == seq![BashParserBlock::Quoted('"')],
    ensures
        scan_step(st, '"', next) matches ScanResult::Scanned(st2) && st2.states.len() == 0 && st2.buf == st.buf,
{
    let q = seq![BashParserBlock::Quoted('"')];
    assert(q.last() == BashParserBlock::Quoted('"'));
    assert(q.drop_last() =~= Seq::<BashParserBlock>::empty());
}

/// The words of a quoted group of at least two plain words, before its last word: no
/// argument yet, the quote open, the words read so far buffered.
proof fn lemma_words_prefix_quoted(ws: Seq<Seq<char>>, k: nat)
    requires
        ws.len() >= 2,
        1 <= k <= ws.len() - 1,
        forall|i: int| 0 <= i < ws.len() ==> plain_word(#[trigger] ws[i]),
    ensures
        words_prefix(initial_line_state(), quote_words(ws), k) matches ReadlineResult::Read(st)
            && st.argv.len() == 0 && st.states == seq![BashParserBlock::Quoted('"')] && st.buffer == ws.take(k as int),
    decreases k,
{
    lemma_quote_words_shape(ws);
    let qws = quote_words(ws);
    let init = initial_line_state();
    if k == 1 {
        let word = qws[0];
        let w = ws[0];
        assert(plain_word(w));
        assert(word == seq!['"'] + w);
        let sc0 = ScanState { states: init.states, prev: init.prev, buf: Seq::empty(), index: init.index };
        assert forall|i: int| 1 <= i < word.len() implies plain_char(#[trigger] word[i]) by {
            assert(word[i] == w[i - 1]);
        }
        lemma_scan_opening(sc0, word, word.len());
        assert(Seq::<char>::empty() + word.subrange(1, word.len() as int) =~= w);
        lemma_split_plain(w, w.len());
        assert(words_prefix(init, qws, 0) == ReadlineResult::Read(init));
        assert(init.argv + Seq::<Seq<char>>::empty() =~= init.argv);
        assert(init.buffer.push(w) =~= ws.take(1));
    } else {
        lemma_words_prefix_quoted(ws, (k - 1) as nat);
        let prev_st = match words_prefix(init, qws, (k - 1) as nat) {
            ReadlineResult::Read(s) => s,
            _ => init,
        };
        let w = ws[k - 1];
        assert(plain_word(w));
        assert(qws[k - 1] == w);
        let sc0 = ScanState { states: prev_st.states, prev: prev_st.prev, buf: Seq::empty(), index: prev_st.index };
        lemma_scan_quoted(sc0, w, w.len());
        assert(Seq::<char>::empty() + w.take(w.len() as int) =~= w);
        lemma_split_plain(w, w.len());
        assert(prev_st.argv + Seq::<Seq<char>>::empty() =~= prev_st.argv);
        assert(ws.take(k - 1).push(w) =~= ws.take(k as int));
    }
}

/// Law: a double-quoted group of plain words is read back as one argument, the words
/// joined by single spaces.
pub proof fn law_quoted_words_read_back(ws: Seq<Seq<char>>)
    requires
        ws.len() >= 1,
        forall|i: int| 0 <= i < ws.len() ==> plain_word(#[trigger] ws[i]),
    ensures
        spec_readline(seq!['"'] + join_space(ws) + seq!['"']) matches ReadlineResult::Read(st) && st.argv == seq![join_space(ws)],
{
    let line = seq!['"'] + join_space(ws) + seq!['"'];
    let qws = quote_words(ws);
    lemma_quote_words_shape(ws);
    // The line is the quoted words joined by spaces.
    let opened = ws.update(0, seq!['"'] + ws[0]);
    lemma_join_space_prefix(ws, seq!['"']);
    lemma_join_space_suffix(opened, seq!['"']);
    assert(line == join_space(qws));
    // It is one line.
    lemma_plain_words_are_solid(ws);
    lemma_join_space_chars(ws);
    assert forall|i: int| 0 <= i < line.len() implies #[trigger] line[i] != '\n' by {
        let j = join_space(ws);
        if i == 0 {
            assert(line[i] == '"');
        } else if i < j.len() + 1 {
            assert(line[i] == j[i - 1]);
            assert(j[i - 1] == ' ' || !is_ws(j[i - 1]));
        } else {
            assert(line[i] == '"');
        }
    }
    lemma_split_lines_one_line(line);
    // Its words are the quoted words.
    assert forall|i: int| 0 <= i < qws.len() implies solid_word(#[trigger] qws[i]) by {
        let w = ws[i];
        assert(plain_word(w));
        assert forall|j: int| 0 <= j < qws[i].len() implies !is_ws(#[trigger] qws[i][j]) by {
            if ws.len() == 1 {
                let whole = seq!['"'] + w + seq!['"'];
                assert(qws[i] == whole);
                if j == 0 || j == w.len() + 1 {
                } else {
                    assert(whole[j] == w[j - 1]);
                    assert(plain_char(w[j - 1]));
                }
            } else if i == 0 {
                let whole = seq!['"'] + w;
                assert(qws[i] == whole);
                if j > 0 {
                    assert(whole[j] == w[j - 1]);
                    assert(plain_char(w[j - 1]));
                }
            } else if i == ws.len() - 1 {
                let whole = w + seq!['"'];
                assert(qws[i] == whole);
                if j < w.len() {
                    assert(whole[j] == w[j]);
                    assert(plain_char(w[j]));
                }
            } else {
                assert(qws[i] == w);
                assert(plain_char(w[j]));
            }
        }
    }
    lemma_words_of_join(qws);
    let init = initial_line_state();
    let n = ws.len();
    // The last word closes the quote.
    if n == 1 {
        let w = ws[0];
        assert(plain_word(w));
        let word = qws[0];
        assert(word == seq!['"'] + w + seq!['"']);
        let sc0 = ScanState { states: init.states, prev: init.prev, buf: Seq::empty(), index: init.index };
        assert forall|i: int| 1 <= i < word.len() - 1 implies plain_char(#[trigger] word[i]) by {
            assert(word[i] == w[i - 1]);
        }
        lemma_scan_opening(sc0, word, (word.len() - 1) as nat);
        let mid = match scan_prefix(sc0, word, (word.len() - 1) as nat) {
            ScanResult::Scanned(st) => st,
            _ => sc0,
        };
        assert(word[word.len() - 1] == '"');
        lemma_scan_closing(mid, next_char(word, word.len() - 1));
        assert(Seq::<char>::empty() + word.subrange(1, word.len() - 1) =~= w);
        lemma_split_plain(w, w.len());
        assert(words_prefix(init, qws, 0) == ReadlineResult::Read(init));
        assert(init.argv + Seq::<Seq<char>>::empty() =~= init.argv);
        assert(join_space(init.buffer.push(w)) == w);
        assert(init.argv.push(w) =~= seq![join_space(ws)]);
    } else {
        lemma_words_prefix_quoted(ws, (n - 1) as nat);
        let prev_st = match words_prefix(init, qws, (n - 1) as nat) {
            ReadlineResult::Read(s) => s,
            _ => init,
        };
        let w = ws[n - 1];
        assert(plain_word(w));
        let word = qws[n - 1];
        assert(word == w + seq!['"']);
        let sc0 = ScanState { states: prev_st.states, prev: prev_st.prev, buf: Seq::empty(), index: prev_st.index };
        assert forall|i: int| 0 <= i < word.len() - 1 implies plain_char(#[trigger] word[i]) by {
            assert(word[i] == w[i]);
        }
        lemma_scan_quoted(sc0, word, (word.len() - 1) as nat);
        let mid = match scan_prefix(sc0, word, (word.len() - 1) as nat) {
            ScanResult::Scanned(st) => st,
            _ => sc0,
        };
        assert(word[word.len() - 1] == '"');
        lemma_scan_closing(mid, next_char(word, word.len() - 1));
        assert(Seq::<char>::empty() + word.take(word.len() - 1) =~= w);
        lemma_split_plain(w, w.len());
        assert(prev_st.argv + Seq::<Seq<char>>::empty() =~= prev_st.argv);
        assert(ws.take(n - 1).push(w) =~= ws);
        assert(prev_st.argv.push(join_space(ws)) =~= seq![join_space(ws)]);
    }
    let lines = split_lines(line);
    assert(lines == seq![line]);
    assert(lines[0] == line);
    assert(lines_prefix(lines, 0) == ReadlineResult::Read(init));
    assert(line_step(init, line, 0) == words_prefix(init, words(line), words(line).len()));
    assert(lines_prefix(lines, 1) == line_step(init, lines[0], 0));
}

/// Lines joined by newlines.
pub open spec fn join_lines(ls: Seq<Seq<char>>) -> Seq<char>
    decreases ls.len(),
{
    if ls.len() == 0 {
        Seq::empty()
    } else if ls.len() == 1 {
        ls[0]
    } else {
        join_lines(ls.drop_last()) + seq!['\n'] + ls.last()
    }
}

/// The arguments of lines of words: the words of each line, with a `;` argument before
/// every line after the first.
pub open spec fn lines_argv(lss: Seq<Seq<Seq<char>>>) -> Seq<Seq<char>>
    decreases lss.len(),
{
    if lss.len() == 0 {
        Seq::empty()
    } else if lss.len() == 1 {
        lss[0]
    } else {
        lines_argv(lss.drop_last()).push(seq![';']) + lss.last()
    }
}

/// Text without a newline extends the last line.
proof fn lemma_split_lines_extend(x: Seq<char>, b: Seq<char>)
    requires
        forall|i: int| 0 <= i < b.len() ==> #[trigger] b[i] != '\n',
    ensures
        split_lines(x + b) == split_lines(x).update(split_lines(x).len() - 1, split_lines(x).last() + b),
        split_lines(x).len() >= 1,
    decreases b.len(),
{
    lemma_split_lines_nonempty(x);
    if b.len() == 0 {
        assert(x + b =~= x);
        assert(split_lines(x).last() + b =~= split_lines(x).last());
        assert(split_lines(x).update(split_lines(x).len() - 1, split_lines(x).last()) =~= split_lines(x));
    } else {
        let b1 = b.drop_last();
        assert forall|i: int| 0 <= i < b1.len() implies #[trigger] b1[i] != '\n' by {
            assert(b1[i] == b[i]);
        }
        lemma_split_lines_extend(x, b1);
        assert((x + b).drop_last() =~= x + b1);
        assert((x + b).last() == b.last());
        assert(b[b.len() - 1] != '\n');
        lemma_split_lines_nonempty(x + b1);
        let p = split_lines(x + b1);
        let q = split_lines(x);
        assert(p == q.update(q.len() - 1, q.last() + b1));
        assert(p.last() == q.last() + b1);
        assert((q.last() + b1).push(b.last()) =~= q.last() + b);
        assert(p.update(p.len() - 1, p.last().push(b.last())) =~= q.update(q.len() - 1, q.last() + b));
    }
}

/// Lines without newlines, joined by newlines, split back into those lines.
proof fn lemma_split_join_lines(ls: Seq<Seq<char>>)
    requires
        ls.len() >= 1,
        forall|i: int, j: int| 0 <= i < ls.len() && 0 <= j < ls[i].len() ==> #[trigger] ls[i][j] != '\n',
    ensures
        split_lines(join_lines(ls)) == ls,
    decreases ls.len(),
{
    if ls.len() == 1 {
        let l = ls[0];
        assert forall|j: int| 0 <= j < l.len() implies #[trigger] l[j] != '\n' by {
            assert(ls[0][j] != '\n');
        }
        lemma_split_lines_one_line(l);
        assert(seq![l] =~= ls);
    } else {
        let front = ls.drop_last();
        assert forall|i: int, j: int| 0 <= i < front.len() && 0 <= j < front[i].len() implies #[trigger] front[i][j] != '\n' by {
            assert(front[i] == ls[i]);
            assert(ls[i][j] != '\n');
        }
        lemma_split_join_lines(front);
        let a = join_lines(front);
        let last = ls.last();
        assert forall|j: int| 0 <= j < last.len() implies #[trigger] last[j] != '\n' by {
            assert(ls[ls.len() - 1][j] != '\n');
        }
        let an = a + seq!['\n'];
        assert(an.drop_last() =~= a);
        assert(an.last() == '\n');
        assert(split_lines(an) == split_lines(a).push(Seq::<char>::empty()));
        lemma_split_lines_extend(an, last);
        assert(join_lines(ls) == an + last);
        assert(Seq::<char>::empty() + last =~= last);
        assert(front.push(Seq::<char>::empty()).update(front.len() as int, last) =~= ls);
    }
}

/// Reading the first `k` lines of token words gives their arguments.
proof fn lemma_lines_prefix_tokens(lss: Seq<Seq<Seq<char>>>, k: nat)
    requires
        k <= lss.len(),
        forall|i: int| 0 <= i < lss.len() ==> (#[trigger] lss[i]).len() > 0,
        forall|i: int, j: int| 0 <= i < lss.len() && 0 <= j < lss[i].len() ==> token_word(#[trigger] lss[i][j]),
    ensures
        lines_prefix(Seq::new(lss.len(), |i: int| join_space(lss[i])), k) matches ReadlineResult::Read(st)
            && st.argv == lines_argv(lss.take(k as int)) && st.states.len() == 0 && st.buffer.len() == 0,
    decreases k,
{
    let texts = Seq::new(lss.len(), |i: int| join_space(lss[i]));
    if k == 0 {
        assert(lss.take(0) =~= Seq::<Seq<Seq<char>>>::empty());
    } else {
        lemma_lines_prefix_tokens(lss, (k - 1) as nat);
        let st = match lines_prefix(texts, (k - 1) as nat) {
            ReadlineResult::Read(s) => s,
            _ => initial_line_state(),
        };
        let ws = lss[k - 1];
        assert(ws.len() > 0);
        assert forall|j: int| 0 <= j < ws.len() implies token_word(#[trigger] ws[j]) by {
            assert(token_word(lss[k - 1][j]));
        }
        let line = texts[k - 1];
        assert(line == join_space(ws));
        lemma_token_words_are_solid(ws);
        lemma_words_of_join(ws);
        assert(solid_word(ws[0]));
        lemma_join_space_prefix(ws, Seq::empty());
        assert(ws.update(0, Seq::<char>::empty() + ws[0]) =~= ws);
        lemma_join_space_nonempty(ws);
        let st1 = if k - 1 > 0 && line.len() > 0 { LineState { argv: st.argv.push(seq![';']), ..st } } else { st };
        lemma_words_prefix_tokens(st1, ws, ws.len());
        assert(ws.take(ws.len() as int) =~= ws);
        let taken = lss.take(k as int);
        assert(taken.drop_last() =~= lss.take(k - 1));
        assert(taken.last() == ws);
        if k == 1 {
            assert(lss.take(0) =~= Seq::<Seq<Seq<char>>>::empty());
            assert(Seq::<Seq<char>>::empty() + ws =~= ws);
            assert(taken =~= seq![ws]);
        }
    }
}

/// Joining at least one solid word gives a nonempty text.
proof fn lemma_join_space_nonempty(ws: Seq<Seq<char>>)
    requires
        ws.len() >= 1,
        solid_word(ws[0]),
    ensures
        join_space(ws).len() > 0,
    decreases ws.len(),
{
    if ws.len() >= 2 {
        lemma_join_space_nonempty(ws.drop_last());
    }
}

/// Law: lines of words that are plain or operators (see `law_words_read_back`), each
/// line's words joined by single spaces and the lines by newlines, are read back as the
/// words of each line with a `;` argument before every line after the first.
pub proof fn law_lines_read_back(lss: Seq<Seq<Seq<char>>>)
    requires
        lss.len() >= 1,
        forall|i: int| 0 <= i < lss.len() ==> (#[trigger] lss[i]).len() > 0,
        forall|i: int, j: int| 0 <= i < lss.len() && 0 <= j < lss[i].len() ==> token_word(#[trigger] lss[i][j]),
    ensures
        spec_readline(join_lines(Seq::new(lss.len(), |i: int| join_space(lss[i])))) matches ReadlineResult::Read(st)
            && st.argv == lines_argv(lss),
{
    let texts = Seq::new(lss.len(), |i: int| join_space(lss[i]));
    assert forall|i: int, j: int| 0 <= i < texts.len() && 0 <= j < texts[i].len() implies #[trigger] texts[i][j] != '\n' by {
        let ws = lss[i];
        assert forall|m: int| 0 <= m < ws.len() implies token_word(#[trigger] ws[m]) by {
            assert(token_word(lss[i][m]));
        }
        lemma_token_words_are_solid(ws);
        lemma_join_space_chars(ws);
        assert(texts[i] == join_space(ws));
        assert(texts[i][j] == ' ' || !is_ws(texts[i][j]));
    }
    lemma_split_join_lines(texts);
    lemma_lines_prefix_tokens(lss, lss.len());
    assert(lss.take(lss.len() as int) =~= lss);
}

/// From position `k0` on, plain characters split nothing off: the pass only clears its
/// escape.
proof fn lemma_split_plain_from(orig: Seq<char>, k0: nat, k: nat)
    requires
        k0 <= k <= orig.len(),
        forall|i: int| k0 <= i < k ==> plain_char(#[trigger] orig[i]),
        !split_prefix(orig, k0).aborted,
    ensures
        k > k0 ==> split_prefix(orig, k) == (SplitState { escaped: false, ..split_prefix(orig, k0) }),
        k == k0 ==> split_prefix(orig, k) == split_prefix(orig, k0),
    decreases k,
{
    if k > k0 {
        lemma_split_plain_from(orig, k0, (k - 1) as nat);
        assert(plain_char(orig[k - 1]));
    }
}

/// The split pass over a plain ASCII word, `;` and a plain ASCII word cuts the first word
/// and the `;` off and keeps the second word.
proof fn lemma_split_semicolon(a: Seq<char>, b: Seq<char>)
    requires
        plain_word(a),
        plain_word(b),
        is_ascii_seq(a),
        is_ascii_seq(b),
    ensures
        split_prefix(a + seq![';'] + b, (a.len() + 1 + b.len()) as nat)
            == (SplitState { pushed: seq![a, seq![';']], cur: b, remainder: None, escaped: false, aborted: false }),
{
    let w = a + seq![';'] + b;
    let n = a.len();
    assert(w.len() == n + 1 + b.len());
    assert(w[n as int] == ';');
    assert forall|i: int| 0 <= i < w.len() implies (#[trigger] w[i] as u32) < 128 by {
        if i < n {
            assert(w[i] == a[i]);
        } else if i > n {
            assert(w[i] == b[i - n - 1]);
        }
    }
    assert forall|i: int| 0 <= i < n implies plain_char(#[trigger] w[i]) by {
        assert(w[i] == a[i]);
    }
    lemma_split_plain_from(w, 0, n);
    let s0 = split_prefix(w, n);
    assert(s0 == (SplitState { pushed: Seq::empty(), cur: w, remainder: None, escaped: false, aborted: false }));
    assert(w[n as int + 1] == b[0]);
    assert(plain_char(b[0]));
    assert(w.subrange(0, n as int) =~= a);
    assert(w.subrange(n as int + 1, w.len() as int) =~= b);
    assert(Seq::<Seq<char>>::empty().push(a).push(seq![';']) =~= seq![a, seq![';']]);
    let s1 = split_prefix(w, (n + 1) as nat);
    assert(s1 == (SplitState { pushed: seq![a, seq![';']], cur: b, remainder: None, escaped: false, aborted: false }));
    assert forall|i: int| n + 1 <= i < w.len() implies plain_char(#[trigger] w[i]) by {
        assert(w[i] == b[i - n - 1]);
    }
    lemma_split_plain_from(w, (n + 1) as nat, w.len());
}

/// Law: a `;` between two plain ASCII words, without spaces, is read as its own argument
/// between the two words.
pub proof fn law_semicolon_splits_a_word(a: Seq<char>, b: Seq<char>)
    requires
        plain_word(a),
        plain_word(b),
        is_ascii_seq(a),
        is_ascii_seq(b),
    ensures
        spec_readline(a + seq![';'] + b) matches ReadlineResult::Read(st) && st.argv == seq![a, seq![';'], b],
{
    let w = a + seq![';'] + b;
    let n = a.len();
    assert forall|i: int| 0 <= i < w.len() implies #[trigger] w[i] != '\n' && !is_ws(w[i]) && scan_neutral(w[i]) by {
        if i < n {
            assert(w[i] == a[i]);
            assert(plain_char(a[i]));
        } else if i > n {
            assert(w[i] == b[i - n - 1]);
            assert(plain_char(b[i - n - 1]));
        } else {
            assert(w[i] == ';');
        }
    }
    lemma_split_lines_one_line(w);
    assert(join_space(seq![w]) == w);
    lemma_words_of_join(seq![w]);
    let sc0 = ScanState { states: initial_line_state().states, prev: initial_line_state().prev, buf: Seq::empty(), index: initial_line_state().index };
    lemma_scan_neutral(sc0, w, w.len());
    assert(Seq::<char>::empty() + w.take(w.len() as int) =~= w);
    lemma_split_semicolon(a, b);
    assert(join_space(seq![b]) == b);
    assert(Seq::<Seq<char>>::empty() + seq![a, seq![';']] =~= seq![a, seq![';']]);
    assert(seq![a, seq![';']].push(b) =~= seq![a, seq![';'], b]);
    let lines = split_lines(w);
    assert(lines[0] == w);
    assert(lines_prefix(lines, 0) == ReadlineResult::Read(initial_line_state()));
    assert(lines_prefix(lines, 1) == line_step(initial_line_state(), lines[0], 0));
    assert(words(w) == seq![w]);
    assert(words_prefix(initial_line_state(), seq![w], 0) == ReadlineResult::Read(initial_line_state()));
    assert(words_prefix(initial_line_state(), seq![w], 1) == word_step(initial_line_state(), w));
}

/// Scanning neutral characters keeps them all and leaves the stack empty, over a prefix of
/// the word whose characters are neutral.
proof fn lemma_scan_neutral_prefix(st0: ScanState, word: Seq<char>, k: nat)
    requires
        st0.states.len() == 0,
        k <= word.len(),
        forall|i: int| 0 <= i < k ==> scan_neutral(#[trigger] word[i]),
    ensures
        scan_prefix(st0, word, k) matches ScanResult::Scanned(st) && st.states.len() == 0 && st.buf == st0.buf + word.take(k as int)
            && st.index == st0.index + k,
    decreases k,
{
    if k == 0 {
        assert(st0.buf + word.take(0) =~= st0.buf);
    } else {
        lemma_scan_neutral_prefix(st0, word, (k - 1) as nat);
        let c = word[k - 1];
        assert(scan_neutral(c));
        assert(st0.buf + word.take(k - 1) + seq![c] =~= st0.buf + word.take(k as int));
    }
}

/// Law: a backslash before a `;` at the end of a plain word keeps the `;` in the word: the
/// word is read as one argument, backslash included.
pub proof fn law_escaped_semicolon_stays_in_the_word(a: Seq<char>)
    requires
        plain_word(a),
    ensures
        spec_readline(a + seq!['\\', ';']) matches ReadlineResult::Read(st) && st.argv == seq![a + seq!['\\', ';']],
{
    let w = a + seq!['\\', ';'];
    let n = a.len();
    assert(w[n as int] == '\\' && w[n as int + 1] == ';');
    assert forall|i: int| 0 <= i < w.len() implies #[trigger] w[i] != '\n' && !is_ws(w[i]) by {
        if i < n {
            assert(w[i] == a[i]);
            assert(plain_char(a[i]));
        }
    }
    assert forall|i: int| 0 <= i < n implies scan_neutral(#[trigger] w[i]) && plain_char(w[i]) by {
        assert(w[i] == a[i]);
        assert(plain_char(a[i]));
    }
    lemma_split_lines_one_line(w);
    assert(join_space(seq![w]) == w);
    lemma_words_of_join(seq![w]);
    let sc0 = ScanState { states: initial_line_state().states, prev: initial_line_state().prev, buf: Seq::empty(), index: initial_line_state().index };
    lemma_scan_neutral_prefix(sc0, w, n);
    assert(Seq::<char>::empty() + w.take(n as int) =~= a);
    if let ScanResult::Scanned(st) = scan_prefix(sc0, w, n) {
        assert(st.states =~= Seq::<BashParserBlock>::empty());
        assert(st.buf == a);
        assert(!escaped(st.states));
        assert(spec_update(st.states, st.prev, '\\') == UpdateResult::Next(seq![BashParserBlock::Escaped]));
        assert(escaped(seq![BashParserBlock::Escaped]));
        assert(next_char(w, n as int) == ';');
        let st1 = ScanState { states: seq![BashParserBlock::Escaped], prev: '\\', buf: a.push('\\'), index: st.index + 1 };
        assert(scan_prefix(sc0, w, (n + 1) as nat) == ScanResult::Scanned(st1));
        assert(seq![BashParserBlock::Escaped].drop_last() =~= Seq::<BashParserBlock>::empty());
        assert(spec_update(st1.states, '\\', ';') == UpdateResult::Next(Seq::<BashParserBlock>::empty()));
        let st2 = ScanState { states: Seq::empty(), prev: ';', buf: a.push('\\').push(';'), index: st.index + 2 };
        assert(scan_prefix(sc0, w, (n + 2) as nat) == ScanResult::Scanned(st2));
        assert(a.push('\\').push(';') =~= w);
    }
    lemma_split_plain_from(w, 0, n);
    let s0 = split_prefix(w, n);
    assert(s0 == (SplitState { pushed: Seq::empty(), cur: w, remainder: None, escaped: false, aborted: false }));
    assert(split_prefix(w, (n + 1) as nat) == (SplitState { pushed: Seq::empty(), cur: w, remainder: None, escaped: true, aborted: false }));
    assert(split_prefix(w, (n + 2) as nat) == (SplitState { pushed: Seq::empty(), cur: w, remainder: None, escaped: false, aborted: false }));
    assert(w.len() == n + 2);
    assert(Seq::<Seq<char>>::empty() + Seq::<Seq<char>>::empty() =~= Seq::<Seq<char>>::empty());
    assert(Seq::<Seq<char>>::empty().push(w) =~= seq![w]);
    let lines = split_lines(w);
    assert(lines[0] == w);
    assert(lines_prefix(lines, 0) == ReadlineResult::Read(initial_line_state()));
    assert(lines_prefix(lines, 1) == line_step(initial_line_state(), lines[0], 0));
    assert(words(w) == seq![w]);
    assert(words_prefix(initial_line_state(), seq![w], 0) == ReadlineResult::Read(initial_line_state()));
    assert(words_prefix(initial_line_state(), seq![w], 1) == word_step(initial_line_state(), w));
}

} // verus!
