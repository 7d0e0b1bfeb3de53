//! The lexer: one left-to-right scan that turns a character sequence into
//! spanned tokens, always ending with exactly one `Eof`.
//!
//! Scanning never fails: an unrecognized character yields an `Error` token
//! and an unterminated string still yields a `String` token reaching the
//! end of the input, for the parser to diagnose. Whitespace (space, tab,
//! carriage return, newline) and `//` line comments may alternate before a
//! token and yield no tokens themselves. Letters are the ASCII letters;
//! identifiers are a letter or `_` followed by letters and underscores.
//!
//! The model is `lex`: what the scan returns is proved equal to it.

use vstd::prelude::*;

use crate::token::SpannedToken;
use crate::token::Token;
use crate::token::WithSpan;
use crate::token::spanned;

verus! {

pub open spec fn is_ws_char(c: char) -> bool {
    c == ' ' || c == '\t' || c == '\r' || c == '\n'
}

pub open spec fn is_digit_char(c: char) -> bool {
    ('0' as u32) <= (c as u32) && (c as u32) <= ('9' as u32)
}

pub open spec fn is_ident_char(c: char) -> bool {
    (('a' as u32) <= (c as u32) && (c as u32) <= ('z' as u32)) || (('A' as u32) <= (c as u32) && (c
        as u32) <= ('Z' as u32)) || c == '_'
}

/// The first position at or after `i` whose character is not whitespace.
pub open spec fn skip_ws(s: Seq<char>, i: int) -> int
    decreases s.len() - i,
{
    if 0 <= i < s.len() && is_ws_char(s[i]) {
        skip_ws(s, i + 1)
    } else {
        i
    }
}

/// The first position at or after `i` holding a newline, or the length.
pub open spec fn line_end(s: Seq<char>, i: int) -> int
    decreases s.len() - i,
{
    if 0 <= i < s.len() && s[i] != '\n' {
        line_end(s, i + 1)
    } else {
        i
    }
}

/// The first position at or after `i` holding a double quote, or the length.
pub open spec fn quote_end(s: Seq<char>, i: int) -> int
    decreases s.len() - i,
{
    if 0 <= i < s.len() && s[i] != '"' {
        quote_end(s, i + 1)
    } else {
        i
    }
}

/// Whether a line comment starts at `i`.
pub open spec fn at_comment(s: Seq<char>, i: int) -> bool {
    0 <= i && i + 1 < s.len() && s[i] == '/' && s[i + 1] == '/'
}

proof fn lemma_skip_ws_props(s: Seq<char>, i: int)
    requires
        0 <= i <= s.len(),
    ensures
        i <= skip_ws(s, i) <= s.len(),
        skip_ws(s, i) == s.len() || !is_ws_char(s[skip_ws(s, i)]),
    decreases s.len() - i,
{
    if i < s.len() && is_ws_char(s[i]) {
        lemma_skip_ws_props(s, i + 1);
    }
}

proof fn lemma_line_end_props(s: Seq<char>, i: int)
    requires
        0 <= i <= s.len(),
    ensures
        i <= line_end(s, i) <= s.len(),
        line_end(s, i) == s.len() || s[line_end(s, i)] == '\n',
    decreases s.len() - i,
{
    if i < s.len() && s[i] != '\n' {
        lemma_line_end_props(s, i + 1);
    }
}

proof fn lemma_quote_end_props(s: Seq<char>, i: int)
    requires
        0 <= i <= s.len(),
    ensures
        i <= quote_end(s, i) <= s.len(),
        quote_end(s, i) == s.len() || s[quote_end(s, i)] == '"',
    decreases s.len() - i,
{
    if i < s.len() && s[i] != '"' {
        lemma_quote_end_props(s, i + 1);
    }
}

/// The position of the next token at or after `i`: whitespace and line
/// comments alternate freely and are skipped.
pub open spec fn skip_trivia(s: Seq<char>, i: int) -> int
    decreases s.len() - i,
    when 0 <= i <= s.len()
    via skip_trivia_decreases
{
    let j = skip_ws(s, i);
    if at_comment(s, j) {
        skip_trivia(s, line_end(s, j + 2))
    } else {
        j
    }
}

#[via_fn]
proof fn skip_trivia_decreases(s: Seq<char>, i: int) {
    lemma_skip_ws_props(s, i);
    let j = skip_ws(s, i);
    if at_comment(s, j) {
        lemma_line_end_props(s, j + 2);
    }
}

proof fn lemma_skip_trivia_props(s: Seq<char>, i: int)
    requires
        0 <= i <= s.len(),
    ensures
        i <= skip_trivia(s, i) <= s.len(),
        skip_ws(s, skip_trivia(s, i)) == skip_trivia(s, i),
        !at_comment(s, skip_trivia(s, i)),
    decreases s.len() - i,
{
    lemma_skip_ws_props(s, i);
    let j = skip_ws(s, i);
    if at_comment(s, j) {
        lemma_line_end_props(s, j + 2);
        lemma_skip_trivia_props(s, line_end(s, j + 2));
    }
}

/// The first position at or after `i` that is not a digit.
pub open spec fn digits_end(s: Seq<char>, i: int) -> int
    decreases s.len() - i,
{
    if 0 <= i < s.len() && is_digit_char(s[i]) {
        digits_end(s, i + 1)
    } else {
        i
    }
}

/// The first position at or after `i` that is not an identifier character.
pub open spec fn ident_end(s: Seq<char>, i: int) -> int
    decreases s.len() - i,
{
    if 0 <= i < s.len() && is_ident_char(s[i]) {
        ident_end(s, i + 1)
    } else {
        i
    }
}

proof fn lemma_digits_end_props(s: Seq<char>, i: int)
    requires
        0 <= i <= s.len(),
    ensures
        i <= digits_end(s, i) <= s.len(),
    decreases s.len() - i,
{
    if i < s.len() && is_digit_char(s[i]) {
        lemma_digits_end_props(s, i + 1);
    }
}

proof fn lemma_ident_end_props(s: Seq<char>, i: int)
    requires
        0 <= i <= s.len(),
    ensures
        i <= ident_end(s, i) <= s.len(),
    decreases s.len() - i,
{
    if i < s.len() && is_ident_char(s[i]) {
        lemma_ident_end_props(s, i + 1);
    }
}

/// Where a number token started just before `i` ends: the maximal digit
/// run, optionally a dot and another maximal digit run.
pub open spec fn number_end(s: Seq<char>, i: int) -> int {
    let d = digits_end(s, i);
    if d < s.len() && s[d] == '.' {
        digits_end(s, d + 1)
    } else {
        d
    }
}

/// The cursor after a string token whose opening quote stood just before
/// `i`: past the closing quote, or the end of input when there is none.
pub open spec fn string_cursor(s: Seq<char>, i: int) -> int {
    let q = quote_end(s, i);
    if q < s.len() {
        q + 1
    } else {
        q
    }
}

/// The keyword a word stands for, or `Identifier` when it is none.
pub open spec fn keyword_token(w: Seq<char>) -> Token {
    if w == "and"@ {
        Token::And
    } else if w == "else"@ {
        Token::Else
    } else if w == "false"@ {
        Token::False
    } else if w == "for"@ {
        Token::For
    } else if w == "fun"@ {
        Token::Fun
    } else if w == "if"@ {
        Token::If
    } else if w == "in"@ {
        Token::In
    } else if w == "nil"@ {
        Token::Nil
    } else if w == "or"@ {
        Token::Or
    } else if w == "print"@ {
        Token::Print
    } else if w == "return"@ {
        Token::Return
    } else if w == "true"@ {
        Token::True
    } else if w == "let"@ {
        Token::Let
    } else {
        Token::Identifier
    }
}

/// The token starting at position `i` — not whitespace, not a comment —
/// and the cursor after it.
pub open spec fn token_at(s: Seq<char>, i: int) -> (Token, int) {
    let c = s[i];
    if c == '(' {
        (Token::LeftParen, i + 1)
    } else if c == ')' {
        (Token::RightParen, i + 1)
    } else if c == '[' {
        (Token::LeftBracket, i + 1)
    } else if c == ']' {
        (Token::RightBracket, i + 1)
    } else if c == '{' {
        (Token::LeftBrace, i + 1)
    } else if c == '}' {
        (Token::RightBrace, i + 1)
    } else if c == ',' {
        (Token::Comma, i + 1)
    } else if c == '.' {
        (Token::Dot, i + 1)
    } else if c == '-' {
        (Token::Minus, i + 1)
    } else if c == '+' {
        (Token::Plus, i + 1)
    } else if c == ';' {
        (Token::Semicolon, i + 1)
    } else if c == '/' {
        (Token::Slash, i + 1)
    } else if c == '*' {
        (Token::Star, i + 1)
    } else if c == '!' {
        if i + 1 < s.len() && s[i + 1] == '=' {
            (Token::NotEqual, i + 2)
        } else {
            (Token::Not, i + 1)
        }
    } else if c == '=' {
        if i + 1 < s.len() && s[i + 1] == '=' {
            (Token::EqualEqual, i + 2)
        } else {
            (Token::Equal, i + 1)
        }
    } else if c == '>' {
        if i + 1 < s.len() && s[i + 1] == '=' {
            (Token::GreaterEqual, i + 2)
        } else {
            (Token::Greater, i + 1)
        }
    } else if c == '<' {
        if i + 1 < s.len() && s[i + 1] == '=' {
            (Token::LessEqual, i + 2)
        } else {
            (Token::Less, i + 1)
        }
    } else if c == '"' {
        (Token::String, string_cursor(s, i + 1))
    } else if is_digit_char(c) {
        (Token::Number, number_end(s, i + 1))
    } else if is_ident_char(c) {
        (keyword_token(s.subrange(i, ident_end(s, i + 1))), ident_end(s, i + 1))
    } else {
        (Token::Error, i + 1)
    }
}

proof fn lemma_token_at_props(s: Seq<char>, i: int)
    requires
        0 <= i < s.len(),
    ensures
        i < token_at(s, i).1 <= s.len(),
        token_at(s, i).0 != Token::Eof,
{
    lemma_quote_end_props(s, i + 1);
    lemma_digits_end_props(s, i + 1);
    lemma_ident_end_props(s, i + 1);
    let d = digits_end(s, i + 1);
    if d < s.len() && s[d] == '.' {
        lemma_digits_end_props(s, d + 1);
    }
}

/// The span the terminating `Eof` token carries: the final character
/// position, or zero on empty input.
pub open spec fn eof_pos(s: Seq<char>) -> int {
    if s.len() == 0 {
        0
    } else {
        s.len() - 1
    }
}

/// The tokens of the input from position `i` on: trivia, one token, the
/// rest — ending with one `Eof` at the end of the input.
pub open spec fn lex_from(s: Seq<char>, i: int) -> Seq<SpannedToken>
    decreases s.len() - i,
    when 0 <= i <= s.len()
    via lex_from_decreases
{
    let j = skip_trivia(s, i);
    if j >= s.len() {
        seq![SpannedToken { tok: Token::Eof, start: eof_pos(s), end: eof_pos(s) }]
    } else {
        let (t, e) = token_at(s, j);
        seq![SpannedToken { tok: t, start: j, end: e - 1 }] + lex_from(s, e)
    }
}

#[via_fn]
proof fn lex_from_decreases(s: Seq<char>, i: int) {
    lemma_skip_trivia_props(s, i);
    let j = skip_trivia(s, i);
    if j < s.len() {
        lemma_token_at_props(s, j);
    }
}

/// The tokens of a whole input.
pub open spec fn lex(s: Seq<char>) -> Seq<SpannedToken> {
    lex_from(s, 0)
}

/// Law: tokenization is total — it is a function defined on every input —
/// and its result always holds at least one token, the last one is `Eof`,
/// and no token before the last is `Eof`.
pub proof fn lemma_lex_ends_with_eof(s: Seq<char>, i: int)
    requires
        0 <= i <= s.len(),
    ensures
        lex_from(s, i).len() >= 1,
        lex_from(s, i).last().tok == Token::Eof,
        forall|k: int|
            0 <= k < lex_from(s, i).len() - 1 ==> (#[trigger] lex_from(s, i)[k]).tok != Token::Eof,
    decreases s.len() - i,
{
    lemma_skip_trivia_props(s, i);
    let j = skip_trivia(s, i);
    if j < s.len() {
        lemma_token_at_props(s, j);
        let (t, e) = token_at(s, j);
        lemma_lex_ends_with_eof(s, e);
        assert(lex_from(s, i).drop_first() =~= lex_from(s, e));
    }
}

/// Every token before the terminating `Eof` carries a span that lies
/// inside the source, start before end, both inclusive.
pub proof fn lemma_lex_spans(s: Seq<char>, i: int)
    requires
        0 <= i <= s.len(),
    ensures
        forall|k: int|
            0 <= k < lex_from(s, i).len() - 1 ==> 0 <= (#[trigger] lex_from(s, i)[k]).start
                <= lex_from(s, i)[k].end < s.len(),
    decreases s.len() - i,
{
    lemma_skip_trivia_props(s, i);
    let j = skip_trivia(s, i);
    if j < s.len() {
        lemma_token_at_props(s, j);
        let (t, e) = token_at(s, j);
        lemma_lex_spans(s, e);
        lemma_lex_ends_with_eof(s, e);
        assert(lex_from(s, i).drop_first() =~= lex_from(s, e));
        assert forall|k: int| 0 <= k < lex_from(s, i).len() - 1 implies 0 <= (#[trigger] lex_from(
            s,
            i,
        )[k]).start <= lex_from(s, i)[k].end < s.len() by {
            if k > 0 {
                assert(lex_from(s, i)[k] == lex_from(s, e)[k - 1]);
            }
        }
    }
}

/// The models of a sequence of spanned tokens.
pub open spec fn tokens_model(v: Seq<WithSpan<Token>>) -> Seq<SpannedToken> {
    v.map_values(|w: WithSpan<Token>| spanned(w))
}

fn char_is_ws(c: char) -> (r: bool)
    ensures
        r == is_ws_char(c),
{
    c == ' ' || c == '\t' || c == '\r' || c == '\n'
}

pub(crate) fn char_is_digit(c: char) -> (r: bool)
    ensures
        r == is_digit_char(c),
{
    ('0' as u32) <= (c as u32) && (c as u32) <= ('9' as u32)
}

fn char_is_ident(c: char) -> (r: bool)
    ensures
        r == is_ident_char(c),
{
    (('a' as u32) <= (c as u32) && (c as u32) <= ('z' as u32)) || (('A' as u32) <= (c as u32) && (c
        as u32) <= ('Z' as u32)) || c == '_'
}

/// The scanner: a cursor over the source characters, and the start of the
/// token it scanned last.
pub struct Lexer {
    source: Vec<char>,
    start_pos: usize,
    cursor: usize,
}

impl Lexer {
    pub closed spec fn src(self) -> Seq<char> {
        self.source@
    }

    pub closed spec fn cur(self) -> int {
        self.cursor as int
    }

    pub closed spec fn start(self) -> int {
        self.start_pos as int
    }

    pub open spec fn wf(self) -> bool {
        self.cur() <= self.src().len()
    }

    pub fn new(source: Vec<char>) -> (r: Self)
        ensures
            r.src() == source@,
            r.cur() == 0,
            r.wf(),
    {
        Self { source, start_pos: 0, cursor: 0 }
    }

    fn is_at_end(&self) -> (r: bool)
        requires
            self.wf(),
        ensures
            r == (self.cur() == self.src().len()),
    {
        self.cursor == self.source.len()
    }

    fn peek(&self) -> (r: Option<char>)
        requires
            self.wf(),
        ensures
            match r {
                Some(c) => self.cur() < self.src().len() && c == self.src()[self.cur()],
                None => self.cur() == self.src().len(),
            },
    {
        if !self.is_at_end() {
            Some(self.source[self.cursor])
        } else {
            None
        }
    }

    fn advance_cursor(&mut self)
        requires
            old(self).wf(),
            old(self).cur() < old(self).src().len(),
        ensures
            final(self).src() == old(self).src(),
            final(self).start() == old(self).start(),
            final(self).cur() == old(self).cur() + 1,
            final(self).wf(),
    {
        let _bound = self.source.len();
        self.cursor = self.cursor + 1;
    }

    fn consume_if(&mut self, ch: char) -> (r: bool)
        requires
            old(self).wf(),
        ensures
            final(self).src() == old(self).src(),
            final(self).start() == old(self).start(),
            final(self).wf(),
            r == (old(self).cur() < old(self).src().len() && old(self).src()[old(self).cur()]
                == ch),
            final(self).cur() == if r {
                old(self).cur() + 1
            } else {
                old(self).cur()
            },
    {
        if Some(ch) == self.peek() {
            self.advance_cursor();
            true
        } else {
            false
        }
    }

    fn if_match(&mut self, ch: char, on_match: Token, otherwise: Token) -> (r: Token)
        requires
            old(self).wf(),
        ensures
            final(self).src() == old(self).src(),
            final(self).start() == old(self).start(),
            final(self).wf(),
            ({
                let hit = old(self).cur() < old(self).src().len() && old(self).src()[old(
                    self,
                ).cur()] == ch;
                r == (if hit {
                    on_match
                } else {
                    otherwise
                }) && final(self).cur() == (if hit {
                    old(self).cur() + 1
                } else {
                    old(self).cur()
                })
            }),
    {
        if self.consume_if(ch) {
            on_match
        } else {
            otherwise
        }
    }

    fn skip_whitespace(&mut self)
        requires
            old(self).wf(),
        ensures
            final(self).src() == old(self).src(),
            final(self).start() == old(self).start(),
            final(self).wf(),
            final(self).cur() == skip_ws(old(self).src(), old(self).cur()),
    {
        while self.cursor < self.source.len() && char_is_ws(self.source[self.cursor])
            invariant
                self.wf(),
                self.src() == old(self).src(),
                self.start() == old(self).start(),
                skip_ws(self.src(), old(self).cur()) == skip_ws(self.src(), self.cur()),
            decreases self.src().len() - self.cur(),
        {
            self.cursor = self.cursor + 1;
        }
    }

    fn check_comment(&self) -> (r: bool)
        requires
            self.wf(),
        ensures
            r == at_comment(self.src(), self.cur()),
    {
        self.cursor < self.source.len() && self.cursor + 1 < self.source.len()
            && self.source[self.cursor] == '/' && self.source[self.cursor + 1] == '/'
    }

    /// Skips line comments and the whitespace after each of them; the
    /// cursor must not stand on whitespace, as after `skip_whitespace`.
    fn skip_comment(&mut self)
        requires
            old(self).wf(),
            skip_ws(old(self).src(), old(self).cur()) == old(self).cur(),
        ensures
            final(self).src() == old(self).src(),
            final(self).start() == old(self).start(),
            final(self).wf(),
            final(self).cur() == skip_trivia(old(self).src(), old(self).cur()),
    {
        while self.check_comment()
            invariant
                self.wf(),
                self.src() == old(self).src(),
                self.start() == old(self).start(),
                skip_ws(self.src(), self.cur()) == self.cur(),
                skip_trivia(self.src(), old(self).cur()) == skip_trivia(self.src(), self.cur()),
            decreases self.src().len() - self.cur(),
        {
            let ghost s = self.src();
            let ghost c0 = self.cur();
            let _bound = self.source.len();
            self.cursor = self.cursor + 2;
            while self.cursor < self.source.len() && self.source[self.cursor] != '\n'
                invariant
                    self.wf(),
                    self.src() == s,
                    self.start() == old(self).start(),
                    line_end(s, c0 + 2) == line_end(s, self.cur()),
                decreases self.src().len() - self.cur(),
            {
                self.cursor = self.cursor + 1;
            }
            proof {
                assert(self.cur() == line_end(s, c0 + 2));
                lemma_line_end_props(s, c0 + 2);
            }
            self.skip_whitespace();
            proof {
                lemma_skip_ws_props(s, line_end(s, c0 + 2));
                assert(skip_trivia(s, c0) == skip_trivia(s, line_end(s, c0 + 2)));
                assert(skip_trivia(s, line_end(s, c0 + 2)) == skip_trivia(s, self.cur()));
            }
        }
    }

    /// Scans the rest of a number: the maximal digit run, then optionally
    /// a dot and another maximal digit run.
    fn number(&mut self) -> (r: Token)
        requires
            old(self).wf(),
        ensures
            final(self).src() == old(self).src(),
            final(self).start() == old(self).start(),
            final(self).wf(),
            final(self).cur() == number_end(old(self).src(), old(self).cur()),
            r == Token::Number,
    {
        self.consume_digits();
        if self.consume_if('.') {
            self.consume_digits();
        }
        Token::Number
    }

    fn consume_digits(&mut self)
        requires
            old(self).wf(),
        ensures
            final(self).src() == old(self).src(),
            final(self).start() == old(self).start(),
            final(self).wf(),
            final(self).cur() == digits_end(old(self).src(), old(self).cur()),
    {
        while self.cursor < self.source.len() && char_is_digit(self.source[self.cursor])
            invariant
                self.wf(),
                self.src() == old(self).src(),
                self.start() == old(self).start(),
                digits_end(self.src(), old(self).cur()) == digits_end(self.src(), self.cur()),
            decreases self.src().len() - self.cur(),
        {
            self.cursor = self.cursor + 1;
        }
    }

    /// Scans the rest of an identifier that started at `start` and decides
    /// whether its text is a keyword.
    fn identifier(&mut self, start: usize) -> (r: Token)
        requires
            old(self).wf(),
            start as int <= old(self).cur(),
        ensures
            final(self).src() == old(self).src(),
            final(self).start() == old(self).start(),
            final(self).wf(),
            final(self).cur() == ident_end(old(self).src(), old(self).cur()),
            r == keyword_token(old(self).src().subrange(start as int, final(self).cur())),
    {
        while self.cursor < self.source.len() && char_is_ident(self.source[self.cursor])
            invariant
                self.wf(),
                self.src() == old(self).src(),
                self.start() == old(self).start(),
                start as int <= self.cur(),
                ident_end(self.src(), old(self).cur()) == ident_end(self.src(), self.cur()),
            decreases self.src().len() - self.cur(),
        {
            self.cursor = self.cursor + 1;
        }
        self.keyword_lookup(start, self.cursor)
    }

    /// Whether the characters in `[start, end)` are exactly the word `kw`.
    fn span_matches(&self, start: usize, end: usize, kw: &str) -> (r: bool)
        requires
            self.wf(),
            start <= end,
            end as int <= self.src().len(),
        ensures
            r == (self.src().subrange(start as int, end as int) == kw@),
    {
        let n = kw.unicode_len();
        if end - start != n {
            proof {
                assert(self.src().subrange(start as int, end as int).len() != kw@.len());
            }
            return false;
        }
        let mut k: usize = 0;
        while k < n
            invariant
                self.wf(),
                start <= end,
                end as int <= self.src().len(),
                k <= n,
                n == kw@.len(),
                end - start == n,
                forall|t: int|
                    0 <= t < k ==> self.src().subrange(start as int, end as int)[t] == kw@[t],
            decreases n - k,
        {
            if self.source[start + k] != kw.get_char(k) {
                proof {
                    assert(self.src().subrange(start as int, end as int)[k as int] != kw@[
                    k as int]);
                }
                return false;
            }
            k = k + 1;
        }
        proof {
            assert(self.src().subrange(start as int, end as int) =~= kw@);
        }
        true
    }

    /// The keyword the word in `[start, end)` stands for, or `Identifier`.
    fn keyword_lookup(&self, start: usize, end: usize) -> (r: Token)
        requires
            self.wf(),
            start <= end,
            end as int <= self.src().len(),
        ensures
            r == keyword_token(self.src().subrange(start as int, end as int)),
    {
        if self.span_matches(start, end, "and") {
            Token::And
        } else if self.span_matches(start, end, "else") {
            Token::Else
        } else if self.span_matches(start, end, "false") {
            Token::False
        } else if self.span_matches(start, end, "for") {
            Token::For
        } else if self.span_matches(start, end, "fun") {
            Token::Fun
        } else if self.span_matches(start, end, "if") {
            Token::If
        } else if self.span_matches(start, end, "in") {
            Token::In
        } else if self.span_matches(start, end, "nil") {
            Token::Nil
        } else if self.span_matches(start, end, "or") {
            Token::Or
        } else if self.span_matches(start, end, "print") {
            Token::Print
        } else if self.span_matches(start, end, "return") {
            Token::Return
        } else if self.span_matches(start, end, "true") {
            Token::True
        } else if self.span_matches(start, end, "let") {
            Token::Let
        } else {
            Token::Identifier
        }
    }

    /// Scans the rest of a string literal whose opening quote was just
    /// consumed: everything up to the closing quote, which is consumed
    /// too; with no closing quote the literal reaches the end of input.
    fn string(&mut self) -> (r: Token)
        requires
            old(self).wf(),
        ensures
            final(self).src() == old(self).src(),
            final(self).start() == old(self).start(),
            final(self).wf(),
            final(self).cur() == string_cursor(old(self).src(), old(self).cur()),
            r == Token::String,
    {
        while self.cursor < self.source.len() && self.source[self.cursor] != '"'
            invariant
                self.wf(),
                self.src() == old(self).src(),
                self.start() == old(self).start(),
                quote_end(self.src(), old(self).cur()) == quote_end(self.src(), self.cur()),
            decreases self.src().len() - self.cur(),
        {
            self.cursor = self.cursor + 1;
        }
        let _ = self.consume_if('"');
        Token::String
    }

    /// Scans one token, or reports that only trivia remained.
    fn next_token(&mut self) -> (r: Option<Token>)
        requires
            old(self).wf(),
        ensures
            final(self).src() == old(self).src(),
            final(self).wf(),
            ({
                let s = old(self).src();
                let j = skip_trivia(s, old(self).cur());
                if j >= s.len() {
                    r is None && final(self).cur() == s.len()
                } else {
                    let (t, e) = token_at(s, j);
                    r == Some(t) && final(self).start() == j && final(self).cur() == e
                }
            }),
    {
        let ghost s = self.src();
        let ghost c0 = self.cur();
        self.skip_whitespace();
        proof {
            lemma_skip_ws_props(s, c0);
        }
        self.skip_comment();
        proof {
            assert(skip_trivia(s, c0) == skip_trivia(s, skip_ws(s, c0)));
            lemma_skip_trivia_props(s, c0);
        }
        if self.cursor >= self.source.len() {
            return None;
        }
        let ch = self.source[self.cursor];
        self.start_pos = self.cursor;
        self.cursor = self.cursor + 1;
        if ch == '(' {
            Some(Token::LeftParen)
        } else if ch == ')' {
            Some(Token::RightParen)
        } else if ch == '[' {
            Some(Token::LeftBracket)
        } else if ch == ']' {
            Some(Token::RightBracket)
        } else if ch == '{' {
            Some(Token::LeftBrace)
        } else if ch == '}' {
            Some(Token::RightBrace)
        } else if ch == ',' {
            Some(Token::Comma)
        } else if ch == '.' {
            Some(Token::Dot)
        } else if ch == '-' {
            Some(Token::Minus)
        } else if ch == '+' {
            Some(Token::Plus)
        } else if ch == ';' {
            Some(Token::Semicolon)
        } else if ch == '/' {
            Some(Token::Slash)
        } else if ch == '*' {
            Some(Token::Star)
        } else if ch == '!' {
            Some(self.if_match('=', Token::NotEqual, Token::Not))
        } else if ch == '=' {
            Some(self.if_match('=', Token::EqualEqual, Token::Equal))
        } else if ch == '>' {
            Some(self.if_match('=', Token::GreaterEqual, Token::Greater))
        } else if ch == '<' {
            Some(self.if_match('=', Token::LessEqual, Token::Less))
        } else if ch == '"' {
            Some(self.string())
        } else if char_is_digit(ch) {
            Some(self.number())
        } else if char_is_ident(ch) {
            Some(self.identifier(self.start_pos))
        } else {
            Some(Token::Error)
        }
    }

    /// Scans the whole input into spanned tokens; the last token, and only
    /// the last, is `Eof`.
    pub fn tokenize_with_context(&mut self) -> (r: Vec<WithSpan<Token>>)
        requires
            old(self).wf(),
        ensures
            tokens_model(r@) == lex_from(old(self).src(), old(self).cur()),
    {
        let ghost s = self.src();
        let ghost c0 = self.cur();
        let mut tokens: Vec<WithSpan<Token>> = Vec::new();
        let mut cur_tok = self.next_token();
        proof {
            assert(tokens_model(tokens@) =~= Seq::<SpannedToken>::empty());
            lemma_skip_trivia_props(s, c0);
            if skip_trivia(s, c0) < s.len() {
                lemma_token_at_props(s, skip_trivia(s, c0));
            }
        }
        while cur_tok.is_some()
            invariant
                self.wf(),
                self.src() == s,
                match cur_tok {
                    Some(t) => {
                        &&& 1 <= self.cur() <= s.len()
                        &&& self.start() < self.cur()
                        &&& lex_from(s, c0) == tokens_model(tokens@) + seq![
                            SpannedToken { tok: t, start: self.start(), end: self.cur() - 1 },
                        ] + lex_from(s, self.cur())
                    },
                    None => {
                        &&& self.cur() == s.len()
                        &&& lex_from(s, c0) == tokens_model(tokens@) + seq![
                            SpannedToken { tok: Token::Eof, start: eof_pos(s), end: eof_pos(s) },
                        ]
                    },
                },
            decreases s.len() - self.cur() + 1, (if cur_tok is Some {
                1int
            } else {
                0int
            }),
        {
            let t = cur_tok.unwrap();
            let w = WithSpan::new(t, self.start_pos, self.cursor - 1);
            tokens.push(w);
            proof {
                assert(tokens_model(tokens@) =~= tokens_model(tokens@.drop_last()) + seq![
                    spanned(w),
                ]);
            }
            let ghost cb = self.cur();
            cur_tok = self.next_token();
            proof {
                lemma_skip_trivia_props(s, cb);
                if skip_trivia(s, cb) < s.len() {
                    lemma_token_at_props(s, skip_trivia(s, cb));
                }
                assert(lex_from(s, c0) =~= (tokens_model(tokens@.drop_last()) + seq![spanned(w)])
                    + lex_from(s, cb));
            }
        }
        let p = if self.cursor > 0 {
            self.cursor - 1
        } else {
            0
        };
        let w = WithSpan::new(Token::Eof, p, p);
        tokens.push(w);
        proof {
            assert(tokens_model(tokens@) =~= tokens_model(tokens@.drop_last()) + seq![spanned(w)]);
            assert(tokens_model(tokens@) =~= lex_from(s, c0));
        }
        tokens
    }
}

/// The characters of a string slice, in order.
fn str_to_chars(buf: &str) -> (r: Vec<char>)
    ensures
        r@ == buf@,
{
    let n = buf.unicode_len();
    let mut chars: Vec<char> = Vec::new();
    let mut i: usize = 0;
    while i < n
        invariant
            i <= n,
            n == buf@.len(),
            chars@ =~= buf@.take(i as int),
        decreases n - i,
    {
        chars.push(buf.get_char(i));
        i = i + 1;
    }
    proof {
        assert(chars@ =~= buf@);
    }
    chars
}

/// Scans a whole source text into spanned tokens. The result always holds
/// at least one token; the last one, and only the last, is `Eof`.
pub fn tokenize_with_context(buf: &str) -> (r: Vec<WithSpan<Token>>)
    ensures
        tokens_model(r@) == lex(buf@),
        r@.len() >= 1,
        r@[r@.len() - 1].spec_value() == Token::Eof,
        forall|k: int| 0 <= k < r@.len() - 1 ==> (#[trigger] r@[k].spec_value()) != Token::Eof,
{
    let chars = str_to_chars(buf);
    let mut lexer = Lexer::new(chars);
    let tokens = lexer.tokenize_with_context();
    proof {
        lemma_lex_ends_with_eof(buf@, 0);
        assert forall|k: int| 0 <= k < tokens@.len() - 1 implies (#[trigger] tokens@[
        k].spec_value()) != Token::Eof by {
            assert(tokens_model(tokens@)[k] == spanned(tokens@[k]));
        }
        assert(tokens_model(tokens@)[tokens@.len() - 1] == spanned(tokens@[tokens@.len() - 1]));
    }
    tokens
}

} // verus!
