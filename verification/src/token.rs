//! The token model: a closed set of token kinds and a source-span wrapper.
//!
//! Tokens are pure data: the lexer produces them, the parser consumes them.
//! A span is a pair of character offsets into the original source, inclusive
//! at both ends; it is used for literal extraction and error messages only.

use vstd::prelude::*;

verus! {

/// The lexical classes the scanner can produce. `Eof` terminates every token
/// sequence exactly once, as its last element; `Error` stands for a character
/// the scanner does not recognize.
#[derive(Clone, Copy, PartialEq, Eq, Structural, Debug)]
pub enum Token {
    // Single-character tokens.
    LeftParen,
    RightParen,
    LeftBracket,
    RightBracket,
    LeftBrace,
    RightBrace,
    Comma,
    Dot,
    Minus,
    Plus,
    Semicolon,
    Slash,
    Star,
    // One or two character tokens.
    Not,
    NotEqual,
    Equal,
    EqualEqual,
    Greater,
    GreaterEqual,
    Less,
    LessEqual,
    // Literals.
    Identifier,
    String,
    Number,
    // Keywords.
    And,
    Else,
    False,
    For,
    Fun,
    If,
    In,
    Nil,
    Or,
    Print,
    Return,
    True,
    Let,

    Error,
    Eof,
}

/// A value together with the source span it was read from. The span is the
/// pair of offsets of the first and the last character of the value's text,
/// both inclusive.
#[derive(Clone, Copy, Debug)]
pub struct WithSpan<T> {
    value: T,
    start_pos: usize,
    end_pos: usize,
}

/// The mathematical content of a spanned token: its kind and the two offsets.
pub struct SpannedToken {
    pub tok: Token,
    pub start: int,
    pub end: int,
}

impl<T: Copy> WithSpan<T> {
    pub closed spec fn spec_value(self) -> T {
        self.value
    }

    pub closed spec fn spec_start(self) -> int {
        self.start_pos as int
    }

    pub closed spec fn spec_end(self) -> int {
        self.end_pos as int
    }

    pub fn new(value: T, start_pos: usize, end_pos: usize) -> (r: Self)
        ensures
            r.spec_value() == value,
            r.spec_start() == start_pos as int,
            r.spec_end() == end_pos as int,
    {
        Self { value, start_pos, end_pos }
    }

    pub fn value(&self) -> (v: T)
        ensures
            v == self.spec_value(),
    {
        self.value
    }

    pub fn start_pos(&self) -> (p: usize)
        ensures
            p as int == self.spec_start(),
    {
        self.start_pos
    }

    pub fn end_pos(&self) -> (p: usize)
        ensures
            p as int == self.spec_end(),
    {
        self.end_pos
    }
}

/// The model of one spanned token, for stating what the lexer returns.
pub open spec fn spanned(w: WithSpan<Token>) -> SpannedToken {
    SpannedToken { tok: w.spec_value(), start: w.spec_start(), end: w.spec_end() }
}

} // verus!
