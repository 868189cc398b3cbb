//! # Bash parser state
//!
//! The stack of open blocks (quotes, escapes, expressions, loops) the Bash tokenizer
//! keeps while it reads characters.

use crate::ParserErrorCode;
use vstd::prelude::*;

verus! {

/// ## BashParserBlock
///
/// A code block kind of the Bash syntax.
#[derive(Copy, Clone, PartialEq, Eq, Structural, Debug)]
pub enum BashParserBlock {
    Escaped,
    /// The character that opened the expression
    Expression(char),
    ForLoop,
    WhileLoop,
    /// The character that opened the quote
    Quoted(char),
}

/// ## BashParserState
///
/// The stack of open blocks, and the previous character read.
/// A block can only be closed while it is on the top of the stack.
#[derive(Debug)]
pub struct BashParserState {
    pub states: Vec<BashParserBlock>,
    pub previous_char: char,
}

/// Whether `b` is on the top of the stack `s`.
pub open spec fn top_is(s: Seq<BashParserBlock>, b: BashParserBlock) -> bool {
    s.len() > 0 && s.last() == b
}

/// Whether the top of the stack is a quote.
pub open spec fn quoted(s: Seq<BashParserBlock>) -> bool {
    top_is(s, BashParserBlock::Quoted('"')) || top_is(s, BashParserBlock::Quoted('\''))
}

/// Whether the top of the stack is an escape.
pub open spec fn escaped(s: Seq<BashParserBlock>) -> bool {
    top_is(s, BashParserBlock::Escaped)
}

/// The result of reading one character: the new stack, or the error the character raises.
pub enum UpdateResult {
    Next(Seq<BashParserBlock>),
    Error(ParserErrorCode),
}

/// The stack after a quote character `q` (the other quote kind being `other`): it closes a
/// quote of its kind on top, is ignored inside the other kind, and opens a quote otherwise.
pub open spec fn after_quote(s: Seq<BashParserBlock>, q: char, other: char) -> Seq<BashParserBlock> {
    if top_is(s, BashParserBlock::Quoted(q)) {
        s.drop_last()
    } else if top_is(s, BashParserBlock::Quoted(other)) {
        s
    } else {
        s.push(BashParserBlock::Quoted(q))
    }
}

/// How reading `ch` (after `prev`) changes the stack of blocks.
///
/// A backslash opens an escape, or closes the one on top. Out of an escape, quotes open and
/// close quotes; out of quotes, `$(` opens an expression that `)` closes, and a backquote
/// opens or closes one; a `)` with no `$(` expression on top is a bad token. An escape
/// covers exactly one character after the backslash.
pub open spec fn spec_update(s: Seq<BashParserBlock>, prev: char, ch: char) -> UpdateResult {
    let s1 = if ch == '\\' {
        if escaped(s) { s.drop_last() } else { s.push(BashParserBlock::Escaped) }
    } else {
        s
    };
    let r2 = if !escaped(s1) {
        if ch == '"' {
            UpdateResult::Next(after_quote(s1, '"', '\''))
        } else if ch == '\'' {
            UpdateResult::Next(after_quote(s1, '\'', '"'))
        } else if !quoted(s1) {
            if ch == '(' && prev == '$' {
                UpdateResult::Next(s1.push(BashParserBlock::Expression('(')))
            } else if ch == '`' {
                if top_is(s1, BashParserBlock::Expression('`')) {
                    UpdateResult::Next(s1.drop_last())
                } else {
                    UpdateResult::Next(s1.push(BashParserBlock::Expression('`')))
                }
            } else if ch == ')' {
                if top_is(s1, BashParserBlock::Expression('(')) {
                    UpdateResult::Next(s1.drop_last())
                } else {
                    UpdateResult::Error(ParserErrorCode::BadToken)
                }
            } else {
                UpdateResult::Next(s1)
            }
        } else {
            UpdateResult::Next(s1)
        }
    } else {
        UpdateResult::Next(s1)
    };
    match r2 {
        UpdateResult::Next(s2) => UpdateResult::Next(
            if escaped(s2) && ch != '\\' { s2.drop_last() } else { s2 },
        ),
        UpdateResult::Error(e) => UpdateResult::Error(e),
    }
}

impl BashParserState {
    /// ### new
    ///
    /// An empty stack; the previous character is a space.
    pub fn new() -> (st: BashParserState)
        ensures
            st.states@ == Seq::<BashParserBlock>::empty(),
            st.previous_char == ' ',
    {
        BashParserState { states: Vec::new(), previous_char: ' ' }
    }

    /// ### update_state
    ///
    /// Updates the stack by the character read. On a bad token the error code is returned,
    /// and the previous character is left unchanged.
    pub fn update_state(&mut self, ch: char) -> (r: Option<ParserErrorCode>)
        ensures
            match spec_update(old(self).states@, old(self).previous_char, ch) {
                UpdateResult::Next(s) => r is None && final(self).states@ == s && final(self).previous_char == ch,
                UpdateResult::Error(e) => r == Some(e) && final(self).states@ == old(self).states@
                    && final(self).previous_char == old(self).previous_char,
            },
    {
        if ch == '\\' {
            if self.is_on_top(BashParserBlock::Escaped) {
                self.pop();
            } else {
                self.stack_state(BashParserBlock::Escaped);
            }
        }
        if !self.is_on_top(BashParserBlock::Escaped) {
            if ch == '"' {
                if self.is_on_top(BashParserBlock::Quoted('"')) {
                    self.pop();
                } else if self.is_on_top(BashParserBlock::Quoted('\'')) {
                } else {
                    self.stack_state(BashParserBlock::Quoted('"'));
                }
            } else if ch == '\'' {
                if self.is_on_top(BashParserBlock::Quoted('\'')) {
                    self.pop();
                } else if self.is_on_top(BashParserBlock::Quoted('"')) {
                } else {
                    self.stack_state(BashParserBlock::Quoted('\''));
                }
            } else if !self.is_quoted() {
                if ch == '(' && self.previous_char == '$' {
                    self.stack_state(BashParserBlock::Expression('('));
                } else if ch == '`' {
                    if self.is_on_top(BashParserBlock::Expression('`')) {
                        self.pop();
                    } else {
                        self.stack_state(BashParserBlock::Expression('`'));
                    }
                } else if ch == ')' {
                    if self.is_on_top(BashParserBlock::Expression('(')) {
                        self.pop();
                    } else {
                        return Some(ParserErrorCode::BadToken);
                    }
                }
            }
        }
        if self.is_escaped() && ch != '\\' {
            self.pop();
        }
        self.previous_char = ch;
        None
    }

    /// ### empty
    ///
    /// Whether the stack is empty.
    pub fn empty(&self) -> (r: bool)
        ensures
            r == (self.states@.len() == 0),
    {
        self.states.len() == 0
    }

    /// ### is_quoted
    pub fn is_quoted(&self) -> (r: bool)
        ensures
            r == quoted(self.states@),
    {
        self.is_on_top(BashParserBlock::Quoted('"')) || self.is_on_top(BashParserBlock::Quoted('\''))
    }

    /// ### is_escaped
    pub fn is_escaped(&self) -> (r: bool)
        ensures
            r == escaped(self.states@),
    {
        self.is_on_top(BashParserBlock::Escaped)
    }

    /// ### is_inside_expression
    pub fn is_inside_expression(&self) -> (r: bool)
        ensures
            r == (top_is(self.states@, BashParserBlock::Expression('(')) || top_is(
                self.states@,
                BashParserBlock::Expression('`'),
            )),
    {
        self.is_on_top(BashParserBlock::Expression('(')) || self.is_on_top(BashParserBlock::Expression('`'))
    }

    /// ### is_in_for_loop
    pub fn is_in_for_loop(&self) -> (r: bool)
        ensures
            r == top_is(self.states@, BashParserBlock::ForLoop),
    {
        self.is_on_top(BashParserBlock::ForLoop)
    }

    /// ### open_for_loop
    pub fn open_for_loop(&mut self)
        ensures
            final(self).states@ == old(self).states@.push(BashParserBlock::ForLoop),
            final(self).previous_char == old(self).previous_char,
    {
        self.stack_state(BashParserBlock::ForLoop);
    }

    /// ### close_for_loop
    ///
    /// Closes the for loop on top of the stack; a bad token when it is not on top.
    pub fn close_for_loop(&mut self) -> (r: Result<(), ParserErrorCode>)
        ensures
            top_is(old(self).states@, BashParserBlock::ForLoop) ==> r is Ok && final(self).states@
                == old(self).states@.drop_last(),
            !top_is(old(self).states@, BashParserBlock::ForLoop) ==> r == Err::<(), ParserErrorCode>(
                ParserErrorCode::BadToken,
            ) && final(self).states@ == old(self).states@,
            final(self).previous_char == old(self).previous_char,
    {
        if self.is_in_for_loop() {
            self.pop();
            Ok(())
        } else {
            Err(ParserErrorCode::BadToken)
        }
    }

    /// ### is_in_while_loop
    pub fn is_in_while_loop(&self) -> (r: bool)
        ensures
            r == top_is(self.states@, BashParserBlock::WhileLoop),
    {
        self.is_on_top(BashParserBlock::WhileLoop)
    }

    /// ### open_while_loop
    pub fn open_while_loop(&mut self)
        ensures
            final(self).states@ == old(self).states@.push(BashParserBlock::WhileLoop),
            final(self).previous_char == old(self).previous_char,
    {
        self.stack_state(BashParserBlock::WhileLoop);
    }

    /// ### close_while_loop
    ///
    /// Closes the while loop on top of the stack; a bad token when it is not on top.
    pub fn close_while_loop(&mut self) -> (r: Result<(), ParserErrorCode>)
        ensures
            top_is(old(self).states@, BashParserBlock::WhileLoop) ==> r is Ok && final(self).states@
                == old(self).states@.drop_last(),
            !top_is(old(self).states@, BashParserBlock::WhileLoop) ==> r == Err::<(), ParserErrorCode>(
                ParserErrorCode::BadToken,
            ) && final(self).states@ == old(self).states@,
            final(self).previous_char == old(self).previous_char,
    {
        if self.is_in_while_loop() {
            self.pop();
            Ok(())
        } else {
            Err(ParserErrorCode::BadToken)
        }
    }

    /// ### is_on_top
    ///
    /// Whether `state` is on the top of the stack.
    pub fn is_on_top(&self, state: BashParserBlock) -> (r: bool)
        ensures
            r == top_is(self.states@, state),
    {
        match self.states.last() {
            None => false,
            Some(s) => match s {
                BashParserBlock::Escaped => match state {
                    BashParserBlock::Escaped => true,
                    _ => false,
                },
                BashParserBlock::Expression(ex) => match state {
                    BashParserBlock::Expression(s_expr) => *ex == s_expr,
                    _ => false,
                },
                BashParserBlock::ForLoop => match state {
                    BashParserBlock::ForLoop => true,
                    _ => false,
                },
                BashParserBlock::Quoted(q) => match state {
                    BashParserBlock::Quoted(s_quoted) => *q == s_quoted,
                    _ => false,
                },
                BashParserBlock::WhileLoop => match state {
                    BashParserBlock::WhileLoop => true,
                    _ => false,
                },
            },
        }
    }

    /// ### stack_state
    ///
    /// Pushes a block on the top of the stack.
    pub fn stack_state(&mut self, state: BashParserBlock)
        ensures
            final(self).states@ == old(self).states@.push(state),
            final(self).previous_char == old(self).previous_char,
    {
        self.states.push(state);
    }

    /// ### pop
    ///
    /// Pops the block on the top of the stack, if any.
    pub fn pop(&mut self)
        ensures
            final(self).states@ == if old(self).states@.len() > 0 {
                old(self).states@.drop_last()
            } else {
                old(self).states@
            },
            final(self).previous_char == old(self).previous_char,
    {
        self.states.pop();
    }
}

/// Law: a backslash escapes exactly one character: reading it and then any character but a
/// backslash leaves the stack as it was, and so does an escaped backslash.
pub proof fn law_escape_covers_one_character(s: Seq<BashParserBlock>, prev: char, ch: char)
    requires
        !escaped(s),
    ensures
        spec_update(s, prev, '\\') == UpdateResult::Next(s.push(BashParserBlock::Escaped)),
        spec_update(s.push(BashParserBlock::Escaped), '\\', ch) == UpdateResult::Next(s),
{
    let e = s.push(BashParserBlock::Escaped);
    assert(e.last() == BashParserBlock::Escaped);
    assert(escaped(e));
    assert(e.drop_last() =~= s);
}

/// Law: out of an escape and of quotes, a double quote opens a quote that the next double
/// quote closes, giving the stack back.
pub proof fn law_double_quote_closes_what_it_opens(s: Seq<BashParserBlock>, prev: char)
    requires
        !escaped(s),
        !quoted(s),
    ensures
        spec_update(s, prev, '"') == UpdateResult::Next(s.push(BashParserBlock::Quoted('"'))),
        spec_update(s.push(BashParserBlock::Quoted('"')), '"', '"') == UpdateResult::Next(s),
{
    let q = s.push(BashParserBlock::Quoted('"'));
    assert(q.last() == BashParserBlock::Quoted('"'));
    assert(!escaped(q));
    assert(q.drop_last() =~= s);
}

/// Law: inside double quotes, a character that is neither a backslash nor a double quote
/// leaves the stack as it was.
pub proof fn law_double_quotes_hold_other_characters(s: Seq<BashParserBlock>, prev: char, ch: char)
    requires
        top_is(s, BashParserBlock::Quoted('"')),
        ch != '\\',
        ch != '"',
    ensures
        spec_update(s, prev, ch) == UpdateResult::Next(s),
{
}

} // verus!
