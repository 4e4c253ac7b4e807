//! Lexer: a stateful cursor over a byte buffer that yields one positioned
//! token per call.
//!
//! Tokens report the 1-based line and column of their first byte. Columns are
//! 1-based on every line: a line feed advances the line count and resets the
//! column to 1. Carriage returns are consumed without moving the position, so
//! CRLF input lexes exactly like LF input.

use vstd::prelude::*;
use vstd::string::StringSliceAdditionalSpecFns;

use crate::message::error_prefix;
use crate::message::push_ascii;
use crate::message::push_prefix;

verus! {

/// A classified, positioned unit of lexical input. `text` is the exact
/// matched slice of the source, except for `Str`, where it is the content
/// strictly between the two quotes.
#[derive(Debug)]
pub enum Token {
    ListOpen { line: usize, col: usize },
    ListClose { line: usize, col: usize },
    Symbol { text: Vec<u8>, line: usize, col: usize },
    Str { text: Vec<u8>, line: usize, col: usize },
    Number { text: Vec<u8>, line: usize, col: usize },
}

/// How `Lexer::next` fails: `EndOfInput` is the normal termination signal
/// (no token left), `UnclosedString` reports an opening quote with no
/// closing quote before a line feed or the end of the input.
#[derive(Debug)]
pub enum LexerError {
    EndOfInput,
    UnclosedString { line: usize, col: usize },
}

/// The bytes of the standalone lexer failure message. `EndOfInput` is a
/// signal rather than a failure and has none.
pub open spec fn lexer_message_model(e: LexerError) -> Seq<u8> {
    match e {
        LexerError::EndOfInput => Seq::empty(),
        LexerError::UnclosedString { line, col } => error_prefix(line as int, col as int)
            + "Missing quote".spec_bytes(),
    }
}

impl LexerError {
    /// Render the failure as `ERROR:<line>:<col>: Missing quote` in ASCII
    /// bytes; empty for `EndOfInput`.
    pub fn message(&self) -> (r: Vec<u8>)
        ensures
            r@ == lexer_message_model(*self),
    {
        let mut out: Vec<u8> = Vec::new();
        match self {
            LexerError::EndOfInput => {
                proof {
                    assert(out@ =~= lexer_message_model(*self));
                }
            },
            LexerError::UnclosedString { line, col } => {
                push_prefix(&mut out, *line, *col);
                push_ascii(&mut out, "Missing quote");
                proof {
                    assert(out@ =~= lexer_message_model(*self));
                }
            },
        }
        out
    }
}

/// Mathematical model of a token.
#[verifier::ext_equal]
pub enum TokenModel {
    ListOpen { line: int, col: int },
    ListClose { line: int, col: int },
    Symbol { text: Seq<u8>, line: int, col: int },
    Str { text: Seq<u8>, line: int, col: int },
    Number { text: Seq<u8>, line: int, col: int },
}

impl View for Token {
    type V = TokenModel;

    open spec fn view(&self) -> TokenModel {
        match self {
            Token::ListOpen { line, col } => TokenModel::ListOpen {
                line: *line as int,
                col: *col as int,
            },
            Token::ListClose { line, col } => TokenModel::ListClose {
                line: *line as int,
                col: *col as int,
            },
            Token::Symbol { text, line, col } => TokenModel::Symbol {
                text: text@,
                line: *line as int,
                col: *col as int,
            },
            Token::Str { text, line, col } => TokenModel::Str {
                text: text@,
                line: *line as int,
                col: *col as int,
            },
            Token::Number { text, line, col } => TokenModel::Number {
                text: text@,
                line: *line as int,
                col: *col as int,
            },
        }
    }
}

/// Mathematical model of the lexer cursor: the whole input, the index of the
/// next unread byte, and the position that index falls on.
#[verifier::ext_equal]
pub struct LexState {
    pub input: Seq<u8>,
    pub pos: int,
    pub line: int,
    pub col: int,
}

pub const BYTE_TAB: u8 = 9;
pub const BYTE_LF: u8 = 10;
pub const BYTE_CR: u8 = 13;
pub const BYTE_SPACE: u8 = 32;
pub const BYTE_QUOTE: u8 = 34;
pub const BYTE_OPEN: u8 = 40;
pub const BYTE_CLOSE: u8 = 41;
pub const BYTE_DOT: u8 = 46;

/// Horizontal whitespace: space or tab.
pub open spec fn is_blank(b: u8) -> bool {
    b == BYTE_SPACE || b == BYTE_TAB
}

/// Bytes that end a symbol or number run: whitespace, line breaks and the
/// two structural parentheses.
pub open spec fn is_terminator(b: u8) -> bool {
    is_blank(b) || b == BYTE_LF || b == BYTE_CR || b == BYTE_OPEN || b == BYTE_CLOSE
}

pub open spec fn is_digit(b: u8) -> bool {
    48 <= b <= 57
}

/// Position and cursor after skipping whitespace: spaces and tabs advance
/// the column, a line feed starts a new line at column 1, and a carriage
/// return is consumed without any position change.
pub open spec fn skip_ws(input: Seq<u8>, pos: int, line: int, col: int) -> (int, int, int)
    decreases input.len() - pos,
{
    if pos < 0 || pos >= input.len() {
        (pos, line, col)
    } else if input[pos] == BYTE_CR {
        skip_ws(input, pos + 1, line, col)
    } else if is_blank(input[pos]) {
        skip_ws(input, pos + 1, line, col + 1)
    } else if input[pos] == BYTE_LF {
        skip_ws(input, pos + 1, line + 1, 1)
    } else {
        (pos, line, col)
    }
}

/// Index of the first closing quote at or after `i`, unless a line feed or
/// the end of the input comes first.
pub open spec fn find_close_quote(input: Seq<u8>, i: int) -> Option<int>
    decreases input.len() - i,
{
    if i < 0 || i >= input.len() {
        None
    } else if input[i] == BYTE_QUOTE {
        Some(i)
    } else if input[i] == BYTE_LF {
        None
    } else {
        find_close_quote(input, i + 1)
    }
}

/// Index of the first terminator at or after `i` (the input length if none).
pub open spec fn run_end(input: Seq<u8>, i: int) -> int
    decreases input.len() - i,
{
    if i < 0 || i >= input.len() {
        i
    } else if is_terminator(input[i]) {
        i
    } else {
        run_end(input, i + 1)
    }
}

/// A run is a number when it is made of ASCII digits and at most one
/// decimal point; any other byte in the run makes the whole run a symbol.
pub open spec fn is_number_text(s: Seq<u8>) -> bool {
    &&& s.len() > 0
    &&& forall|i: int| 0 <= i < s.len() ==> is_digit(s[i]) || s[i] == BYTE_DOT
    &&& forall|i: int, j: int| 0 <= i < j < s.len() ==> !(s[i] == BYTE_DOT && s[j] == BYTE_DOT)
}

/// What one call of `Lexer::next` does to a cursor: a token plus the cursor
/// after it, the end of the input, or an unterminated string.
#[verifier::ext_equal]
pub enum LexOutcome {
    Tok { token: TokenModel, next: LexState },
    End { line: int, col: int },
    Unclosed { line: int, col: int },
}

/// The next token of `s`, after whitespace. Structural bytes yield
/// one-byte tokens; a quote opens a string that must close on the same
/// line; everything else is a maximal run up to a terminator, classified
/// as a number or a symbol by `is_number_text`.
pub open spec fn lex_next(s: LexState) -> LexOutcome {
    let (p, l, c) = skip_ws(s.input, s.pos, s.line, s.col);
    if p >= s.input.len() {
        LexOutcome::End { line: l, col: c }
    } else if s.input[p] == BYTE_OPEN {
        LexOutcome::Tok {
            token: TokenModel::ListOpen { line: l, col: c },
            next: LexState { input: s.input, pos: p + 1, line: l, col: c + 1 },
        }
    } else if s.input[p] == BYTE_CLOSE {
        LexOutcome::Tok {
            token: TokenModel::ListClose { line: l, col: c },
            next: LexState { input: s.input, pos: p + 1, line: l, col: c + 1 },
        }
    } else if s.input[p] == BYTE_QUOTE {
        match find_close_quote(s.input, p + 1) {
            Some(j) => LexOutcome::Tok {
                token: TokenModel::Str { text: s.input.subrange(p + 1, j), line: l, col: c },
                next: LexState { input: s.input, pos: j + 1, line: l, col: c + (j + 1 - p) },
            },
            None => LexOutcome::Unclosed { line: l, col: c },
        }
    } else {
        let e = run_end(s.input, p);
        let text = s.input.subrange(p, e);
        LexOutcome::Tok {
            token: if is_number_text(text) {
                TokenModel::Number { text: text, line: l, col: c }
            } else {
                TokenModel::Symbol { text: text, line: l, col: c }
            },
            next: LexState { input: s.input, pos: e, line: l, col: c + (e - p) },
        }
    }
}

/// A drained cursor: every token it yields in order together with the
/// end-of-input position, or the position of an unterminated string.
#[verifier::ext_equal]
pub enum LexAll {
    Done { tokens: Seq<TokenModel>, line: int, col: int },
    Fail { line: int, col: int },
}

/// All tokens of `s` until the input ends or an unterminated string fails
/// the lexing.
pub open spec fn lex_all(s: LexState) -> LexAll
    decreases s.input.len() - s.pos,
        when 0 <= s.pos <= s.input.len()
{
    match lex_next(s) {
        LexOutcome::Tok { token, next } => {
            proof {
                lemma_lex_next_tok_bounds(s);
            }
            match lex_all(next) {
                LexAll::Done { tokens, line, col } => LexAll::Done {
                    tokens: seq![token] + tokens,
                    line,
                    col,
                },
                LexAll::Fail { line, col } => LexAll::Fail { line, col },
            }
        },
        LexOutcome::End { line, col } => LexAll::Done { tokens: Seq::empty(), line, col },
        LexOutcome::Unclosed { line, col } => LexAll::Fail { line, col },
    }
}

/// Cursor over one input buffer. Created once per buffer and advanced only
/// by `next`.
pub struct Lexer {
    input: Vec<u8>,
    pos: usize,
    line: usize,
    col: usize,
}

impl View for Lexer {
    type V = LexState;

    closed spec fn view(&self) -> LexState {
        LexState {
            input: self.input@,
            pos: self.pos as int,
            line: self.line as int,
            col: self.col as int,
        }
    }
}

impl Lexer {
    /// Positions stay in bounds: lines and columns are 1-based and can never
    /// outgrow the number of bytes consumed, which keeps their arithmetic
    /// free of overflow.
    #[verifier::type_invariant]
    pub closed spec fn wf(&self) -> bool {
        &&& self.input@.len() < usize::MAX
        &&& self.pos <= self.input@.len()
        &&& 1 <= self.line <= self.pos + 1
        &&& 1 <= self.col <= self.pos + 1
    }

    /// A fresh cursor at the start of `input`, on line 1, column 1.
    pub fn new(input: Vec<u8>) -> (r: Lexer)
        requires
            input@.len() < usize::MAX,
        ensures
            r@ == (LexState { input: input@, pos: 0, line: 1, col: 1 }),
    {
        Lexer { input, pos: 0, line: 1, col: 1 }
    }

    /// The line the cursor is on, 1-based.
    pub fn line(&self) -> (r: usize)
        ensures
            r as int == self@.line,
    {
        self.line
    }

    /// The column the cursor is on, 1-based.
    pub fn col(&self) -> (r: usize)
        ensures
            r as int == self@.col,
    {
        self.col
    }

    /// Consume whitespace until the cursor rests on a non-skippable byte or
    /// the end of the input.
    fn skip_blanks(&mut self)
        ensures
            final(self)@ == ({
                let (p, l, c) = skip_ws(
                    old(self)@.input,
                    old(self)@.pos,
                    old(self)@.line,
                    old(self)@.col,
                );
                LexState { input: old(self)@.input, pos: p, line: l, col: c }
            }),
    {
        proof {
            use_type_invariant(&*self);
        }
        let ghost init = self@;
        loop
            invariant
                self.wf(),
                self@.input == init.input,
                0 <= init.pos <= self@.pos,
                skip_ws(self@.input, self@.pos, self@.line, self@.col) == skip_ws(
                    init.input,
                    init.pos,
                    init.line,
                    init.col,
                ),
            ensures
                self.wf(),
                self@.input == init.input,
                skip_ws(init.input, init.pos, init.line, init.col) == (
                    self@.pos,
                    self@.line,
                    self@.col,
                ),
            decreases self@.input.len() - self@.pos,
        {
            if self.pos == self.input.len() {
                break;
            }
            let b = self.input[self.pos];
            if b == BYTE_CR {
                self.pos = self.pos + 1;
            } else if b == BYTE_SPACE || b == BYTE_TAB {
                self.pos = self.pos + 1;
                self.col = self.col + 1;
            } else if b == BYTE_LF {
                self.pos = self.pos + 1;
                self.line = self.line + 1;
                self.col = 1;
            } else {
                break;
            }
        }
    }

    /// Index of the closing quote that ends a string opened just before
    /// `start`, if any comes before a line feed or the end of the input.
    fn find_quote_end(&self, start: usize) -> (r: Option<usize>)
        requires
            start <= self@.input.len(),
        ensures
            match r {
                Some(j) => find_close_quote(self@.input, start as int) == Some(j as int)
                    && start <= j < self@.input.len(),
                None => find_close_quote(self@.input, start as int) is None,
            },
    {
        proof {
            use_type_invariant(self);
        }
        let mut i = start;
        loop
            invariant
                self.wf(),
                start <= i <= self@.input.len(),
                find_close_quote(self@.input, start as int) == find_close_quote(
                    self@.input,
                    i as int,
                ),
            decreases self@.input.len() - i,
        {
            if i == self.input.len() {
                return None;
            }
            let b = self.input[i];
            if b == BYTE_QUOTE {
                return Some(i);
            }
            if b == BYTE_LF {
                return None;
            }
            i = i + 1;
        }
    }

    /// Index of the first terminator at or after the cursor.
    fn find_run_end(&self) -> (e: usize)
        requires
            self@.pos <= self@.input.len(),
        ensures
            e as int == run_end(self@.input, self@.pos),
            self@.pos <= e <= self@.input.len(),
    {
        proof {
            use_type_invariant(self);
        }
        let mut i = self.pos;
        loop
            invariant
                self.wf(),
                self@.pos <= i <= self@.input.len(),
                run_end(self@.input, self@.pos) == run_end(self@.input, i as int),
            decreases self@.input.len() - i,
        {
            if i == self.input.len() {
                return i;
            }
            let b = self.input[i];
            if terminator(b) {
                return i;
            }
            i = i + 1;
        }
    }

    /// Copy of the bytes in `[a, b)` of the input.
    fn copy_range(&self, a: usize, b: usize) -> (out: Vec<u8>)
        requires
            a <= b <= self@.input.len(),
        ensures
            out@ == self@.input.subrange(a as int, b as int),
    {
        let mut out: Vec<u8> = Vec::new();
        let mut j = a;
        while j < b
            invariant
                a <= j <= b <= self@.input.len(),
                out@ == self@.input.subrange(a as int, j as int),
            decreases b - j,
        {
            out.push(self.input[j]);
            proof {
                assert(out@ =~= self@.input.subrange(a as int, j + 1 as int));
            }
            j = j + 1;
        }
        out
    }

    /// The next token of the input, or `EndOfInput` when none is left, or
    /// `UnclosedString` for a quote with no closing quote on its line. The
    /// cursor moves past the returned token and does not move on
    /// `UnclosedString`, beyond the whitespace already skipped.
    pub fn next(&mut self) -> (r: Result<Token, LexerError>)
        ensures
            final(self)@.input == old(self)@.input,
            match r {
                Ok(t) => lex_next(old(self)@) matches LexOutcome::Tok { token, next }
                    && t@ == token && final(self)@ == next,
                Err(LexerError::EndOfInput) => lex_next(old(self)@) matches LexOutcome::End {
                    line,
                    col,
                } && final(self)@ == (LexState {
                    input: old(self)@.input,
                    pos: old(self)@.input.len() as int,
                    line,
                    col,
                }),
                Err(LexerError::UnclosedString { line: el, col: ec }) => lex_next(old(self)@)
                    matches LexOutcome::Unclosed { line, col } && el as int == line && ec as int
                    == col && final(self)@ == (LexState {
                    input: old(self)@.input,
                    pos: final(self)@.pos,
                    line,
                    col,
                }),
            },
    {
        proof {
            use_type_invariant(&*self);
        }
        self.skip_blanks();
        proof {
            use_type_invariant(&*self);
            lemma_skip_ws_props(old(self)@.input, old(self)@.pos, old(self)@.line, old(self)@.col);
        }
        if self.pos == self.input.len() {
            return Err(LexerError::EndOfInput);
        }
        let b = self.input[self.pos];
        if b == BYTE_OPEN {
            let t = Token::ListOpen { line: self.line, col: self.col };
            self.pos = self.pos + 1;
            self.col = self.col + 1;
            return Ok(t);
        }
        if b == BYTE_CLOSE {
            let t = Token::ListClose { line: self.line, col: self.col };
            self.pos = self.pos + 1;
            self.col = self.col + 1;
            return Ok(t);
        }
        if b == BYTE_QUOTE {
            match self.find_quote_end(self.pos + 1) {
                Some(j) => {
                    let start = self.pos;
                    let text = self.copy_range(start + 1, j);
                    let t = Token::Str { text, line: self.line, col: self.col };
                    self.pos = j + 1;
                    self.col = self.col + (j + 1 - start);
                    return Ok(t);
                },
                None => {
                    return Err(LexerError::UnclosedString { line: self.line, col: self.col });
                },
            }
        }
        let e = self.find_run_end();
        proof {
            assert(run_end(self@.input, self@.pos) == run_end(self@.input, self@.pos + 1));
        }
        let text = self.copy_range(self.pos, e);
        let is_num = is_number_run(&text);
        let t = if is_num {
            Token::Number { text, line: self.line, col: self.col }
        } else {
            Token::Symbol { text, line: self.line, col: self.col }
        };
        let start = self.pos;
        self.pos = e;
        self.col = self.col + (e - start);
        Ok(t)
    }
}

/// Executable mirror of `is_terminator`.
fn terminator(b: u8) -> (r: bool)
    ensures
        r == is_terminator(b),
{
    b == BYTE_SPACE || b == BYTE_TAB || b == BYTE_LF || b == BYTE_CR || b == BYTE_OPEN || b
        == BYTE_CLOSE
}

/// Executable mirror of `is_number_text`.
fn is_number_run(text: &Vec<u8>) -> (r: bool)
    ensures
        r == is_number_text(text@),
{
    if text.len() == 0 {
        return false;
    }
    let mut seen_dot = false;
    let mut i: usize = 0;
    while i < text.len()
        invariant
            0 < text@.len(),
            i <= text@.len(),
            forall|k: int| 0 <= k < i ==> is_digit(text@[k]) || text@[k] == BYTE_DOT,
            seen_dot <==> exists|k: int| 0 <= k < i && text@[k] == BYTE_DOT,
            forall|k: int, l: int|
                0 <= k < l < i ==> !(text@[k] == BYTE_DOT && text@[l] == BYTE_DOT),
        decreases text@.len() - i,
    {
        let b = text[i];
        if b == BYTE_DOT {
            if seen_dot {
                proof {
                    let k = choose|k: int| 0 <= k < i && text@[k] == BYTE_DOT;
                    assert(!(is_number_text(text@))) by {
                        assert(text@[k] == BYTE_DOT && text@[i as int] == BYTE_DOT && k < i);
                    }
                }
                return false;
            }
            seen_dot = true;
        } else if b < 48 || b > 57 {
            proof {
                assert(!(is_digit(text@[i as int]) || text@[i as int] == BYTE_DOT));
            }
            return false;
        }
        i = i + 1;
    }
    true
}

/// A well-formed lexer's cursor index lies within its input.
pub proof fn lemma_cursor_bounds(l: &Lexer)
    requires
        l.wf(),
    ensures
        0 <= l@.pos <= l@.input.len(),
{
}

/// The bytes in `[i, e)` of a run hold no terminator, and the run stops at
/// one or at the end of the input.
pub proof fn lemma_run_end_props(input: Seq<u8>, i: int)
    requires
        0 <= i <= input.len(),
    ensures
        ({
            let e = run_end(input, i);
            &&& i <= e <= input.len()
            &&& forall|k: int| i <= k < e ==> !is_terminator(input[k])
            &&& e < input.len() ==> is_terminator(input[e])
        }),
    decreases input.len() - i,
{
    if i < input.len() && !is_terminator(input[i]) {
        lemma_run_end_props(input, i + 1);
    }
}

/// A run over terminator-free input reaches the end of the input.
pub proof fn lemma_run_end_full(input: Seq<u8>, i: int)
    requires
        0 <= i <= input.len(),
        forall|k: int| i <= k < input.len() ==> !is_terminator(input[k]),
    ensures
        run_end(input, i) == input.len(),
    decreases input.len() - i,
{
    if i < input.len() {
        lemma_run_end_full(input, i + 1);
    }
}

/// A found closing quote is the first one, with no line feed before it.
pub proof fn lemma_find_close_quote_props(input: Seq<u8>, i: int)
    requires
        0 <= i <= input.len(),
    ensures
        match find_close_quote(input, i) {
            Some(j) => i <= j < input.len() && input[j] == BYTE_QUOTE && forall|k: int|
                i <= k < j ==> input[k] != BYTE_QUOTE && input[k] != BYTE_LF,
            None => true,
        },
    decreases input.len() - i,
{
    if i < input.len() && input[i] != BYTE_QUOTE && input[i] != BYTE_LF {
        lemma_find_close_quote_props(input, i + 1);
    }
}

/// Skipping whitespace never moves backwards and stops on a byte that is
/// not skippable.
pub proof fn lemma_skip_ws_props(input: Seq<u8>, pos: int, line: int, col: int)
    requires
        0 <= pos <= input.len(),
    ensures
        ({
            let (p, l, c) = skip_ws(input, pos, line, col);
            &&& pos <= p <= input.len()
            &&& p < input.len() ==> !(input[p] == BYTE_CR || is_blank(input[p]) || input[p]
                == BYTE_LF)
        }),
    decreases input.len() - pos,
{
    if pos < input.len() {
        if input[pos] == BYTE_CR {
            lemma_skip_ws_props(input, pos + 1, line, col);
        } else if is_blank(input[pos]) {
            lemma_skip_ws_props(input, pos + 1, line, col + 1);
        } else if input[pos] == BYTE_LF {
            lemma_skip_ws_props(input, pos + 1, line + 1, 1);
        }
    }
}

/// A produced token moves the cursor strictly forward and never past the
/// end, and leaves the input unchanged.
pub proof fn lemma_lex_next_tok_bounds(s: LexState)
    requires
        0 <= s.pos <= s.input.len(),
    ensures
        lex_next(s) matches LexOutcome::Tok { token, next } ==> s.pos < next.pos
            <= s.input.len() && next.input == s.input,
{
    lemma_skip_ws_props(s.input, s.pos, s.line, s.col);
    let (p, l, c) = skip_ws(s.input, s.pos, s.line, s.col);
    if p < s.input.len() {
        if s.input[p] == BYTE_QUOTE {
            lemma_find_close_quote_props(s.input, p + 1);
        } else if s.input[p] != BYTE_OPEN && s.input[p] != BYTE_CLOSE {
            lemma_run_end_props(s.input, p);
            assert(run_end(s.input, p) == run_end(s.input, p + 1));
        }
    }
}

/// Re-lexing the text of an emitted symbol or number token in isolation
/// reproduces a token of the same kind with the same text; the fresh cursor
/// consumes the whole text.
pub proof fn lemma_relex_token(s: LexState)
    requires
        0 <= s.pos <= s.input.len(),
    ensures
        lex_next(s) matches LexOutcome::Tok { token: TokenModel::Symbol { text, line, col }, next }
            ==> lex_next(LexState { input: text, pos: 0, line: 1, col: 1 }) == (LexOutcome::Tok {
            token: TokenModel::Symbol { text, line: 1, col: 1 },
            next: LexState { input: text, pos: text.len() as int, line: 1, col: 1 + text.len() as int },
        }),
        lex_next(s) matches LexOutcome::Tok { token: TokenModel::Number { text, line, col }, next }
            ==> lex_next(LexState { input: text, pos: 0, line: 1, col: 1 }) == (LexOutcome::Tok {
            token: TokenModel::Number { text, line: 1, col: 1 },
            next: LexState { input: text, pos: text.len() as int, line: 1, col: 1 + text.len() as int },
        }),
{
    lemma_skip_ws_props(s.input, s.pos, s.line, s.col);
    let (p, l, c) = skip_ws(s.input, s.pos, s.line, s.col);
    if p < s.input.len() && s.input[p] != BYTE_OPEN && s.input[p] != BYTE_CLOSE && s.input[p]
        != BYTE_QUOTE {
        lemma_run_end_props(s.input, p);
        let e = run_end(s.input, p);
        assert(run_end(s.input, p) == run_end(s.input, p + 1));
        let text = s.input.subrange(p, e);
        assert(forall|k: int| 0 <= k < text.len() ==> !is_terminator(text[k]));
        lemma_run_end_full(text, 0);
        assert(text.subrange(0, text.len() as int) =~= text);
        assert(skip_ws(text, 0, 1, 1) == (0int, 1int, 1int));
    }
}

} // verus!
