//! The lexer: from characters to tokens.

use crate::text::chars_of;
use vstd::prelude::*;
use vstd::string::StringExecFns;

verus! {

/// What a token is.
#[derive(Debug, PartialEq, Eq)]
pub enum TokenContents {
    /// A single lower-case letter: a variable.
    Letter(char),
    /// A decimal literal.
    Number(u32),
    /// A name: upper-case letters and digits, starting with a letter.
    Name(String),
    Dot,
    Lambda,
    OpenParenth,
    CloseParenth,
    /// The end of the input.
    End,
}

/// A token with the offset of its first character.
#[derive(Debug, PartialEq, Eq)]
pub struct Token {
    pub position: usize,
    pub contents: TokenContents,
}

/// A failure to read a token.
#[derive(Debug, PartialEq, Eq)]
pub struct LexError {
    /// The offset, in characters, of the offending character.
    pub position: usize,
    pub message: String,
}

/// The model of `TokenContents`.
pub ghost enum TokenKind {
    Letter(char),
    Number(nat),
    Name(Seq<char>),
    Dot,
    Lambda,
    OpenParenth,
    CloseParenth,
    End,
}

/// A token as the specification sees it: its kind, the offset of its first
/// character and the offset just behind its last.
pub ghost struct Lexed {
    pub kind: TokenKind,
    pub start: nat,
    pub end: nat,
}

/// The model of an error of the lexer or the parser.
pub ghost struct Failure {
    pub position: nat,
    pub message: Seq<char>,
}

impl View for TokenContents {
    type V = TokenKind;

    open spec fn view(&self) -> TokenKind {
        match self {
            TokenContents::Letter(c) => TokenKind::Letter(*c),
            TokenContents::Number(n) => TokenKind::Number(*n as nat),
            TokenContents::Name(s) => TokenKind::Name(s@),
            TokenContents::Dot => TokenKind::Dot,
            TokenContents::Lambda => TokenKind::Lambda,
            TokenContents::OpenParenth => TokenKind::OpenParenth,
            TokenContents::CloseParenth => TokenKind::CloseParenth,
            TokenContents::End => TokenKind::End,
        }
    }
}

impl View for LexError {
    type V = Failure;

    open spec fn view(&self) -> Failure {
        Failure { position: self.position as nat, message: self.message@ }
    }
}

pub open spec fn whitespace(ch: char) -> bool {
    ch == ' ' || ch == '\t' || ch == '\r' || ch == '\n'
}

pub open spec fn uppercase(ch: char) -> bool {
    'A' <= ch && ch <= 'Z'
}

pub open spec fn lowercase(ch: char) -> bool {
    'a' <= ch && ch <= 'z'
}

pub open spec fn digit(ch: char) -> bool {
    '0' <= ch && ch <= '9'
}

/// Blank, tab, carriage return and line feed separate tokens.
#[verifier::when_used_as_spec(whitespace)]
pub fn is_whitespace(ch: char) -> (b: bool)
    ensures
        b == whitespace(ch),
{
    match ch {
        ' ' | '\t' | '\r' | '\n' => true,
        _ => false,
    }
}

/// The letters that a name is made of.
#[verifier::when_used_as_spec(uppercase)]
pub fn is_name(ch: char) -> (b: bool)
    ensures
        b == uppercase(ch),
{
    ch >= 'A' && ch <= 'Z'
}

/// The letters that stand for variables.
#[verifier::when_used_as_spec(lowercase)]
pub fn is_variable(ch: char) -> (b: bool)
    ensures
        b == lowercase(ch),
{
    ch >= 'a' && ch <= 'z'
}

#[verifier::when_used_as_spec(digit)]
pub fn is_digit(ch: char) -> (b: bool)
    ensures
        b == digit(ch),
{
    ch >= '0' && ch <= '9'
}

/// The classes of characters of which the lexer reads a whole run.
pub ghost enum CharClass {
    Blank,
    Digit,
    NamePart,
}

impl CharClass {
    pub open spec fn holds(self, ch: char) -> bool {
        match self {
            CharClass::Blank => is_whitespace(ch),
            CharClass::Digit => is_digit(ch),
            CharClass::NamePart => is_name(ch) || is_digit(ch),
        }
    }
}

/// The end of the run of characters of `class` that starts at `pos`: the
/// first offset from `pos` on that holds no character of the class.
pub open spec fn span_end(s: Seq<char>, pos: nat, class: CharClass) -> nat
    decreases s.len() - pos,
{
    if pos < s.len() && class.holds(s[pos as int]) {
        span_end(s, pos + 1, class)
    } else {
        pos
    }
}

/// The number that a decimal digit stands for.
pub open spec fn digit_value(ch: char) -> nat {
    (ch as nat - '0' as nat) as nat
}

/// The number that a run of decimal digits stands for.
pub open spec fn decimal_value(digits: Seq<char>) -> nat
    decreases digits.len(),
{
    if digits.len() == 0 {
        0
    } else {
        decimal_value(digits.drop_last()) * 10 + digit_value(digits.last())
    }
}

pub open spec fn msg_too_large() -> Seq<char> {
    "integer literal too large"@
}

pub open spec fn msg_invalid_number() -> Seq<char> {
    "invalid number"@
}

pub open spec fn msg_letter_then_digit() -> Seq<char> {
    "variable can't be immediately followed by a number"@
}

pub open spec fn msg_letter_then_name() -> Seq<char> {
    "variable can't be immediately followed by a name"@
}

pub open spec fn msg_lowercase_in_name() -> Seq<char> {
    "names must consist of capital letters and numbers"@
}

pub open spec fn msg_invalid_token() -> Seq<char> {
    "invalid token"@
}

/// The number token whose first digit stands at `start`. The literal must
/// not exceed `u32`, and no letter may follow it directly.
pub open spec fn lex_number(s: Seq<char>, start: nat) -> Result<Lexed, Failure> {
    let end = span_end(s, start, CharClass::Digit);
    let value = decimal_value(s.subrange(start as int, end as int));
    if value > u32::MAX {
        Err(Failure { position: start, message: msg_too_large() })
    } else if end < s.len() && (is_variable(s[end as int]) || is_name(s[end as int])) {
        Err(Failure { position: end, message: msg_invalid_number() })
    } else {
        Ok(Lexed { kind: TokenKind::Number(value), start, end })
    }
}

/// The variable token whose letter stands at `start`. Neither a digit nor an
/// upper-case letter may follow it directly.
pub open spec fn lex_variable(s: Seq<char>, start: nat) -> Result<Lexed, Failure> {
    let end = start + 1;
    if end < s.len() && is_digit(s[end as int]) {
        Err(Failure { position: end, message: msg_letter_then_digit() })
    } else if end < s.len() && is_name(s[end as int]) {
        Err(Failure { position: end, message: msg_letter_then_name() })
    } else {
        Ok(Lexed { kind: TokenKind::Letter(s[start as int]), start, end })
    }
}

/// The name token whose first letter stands at `start`: the longest run of
/// upper-case letters and digits. No lower-case letter may follow it
/// directly.
pub open spec fn lex_name(s: Seq<char>, start: nat) -> Result<Lexed, Failure> {
    let end = span_end(s, start, CharClass::NamePart);
    if end < s.len() && is_variable(s[end as int]) {
        Err(Failure { position: end, message: msg_lowercase_in_name() })
    } else {
        Ok(Lexed { kind: TokenKind::Name(s.subrange(start as int, end as int)), start, end })
    }
}

/// The token that starts at `start`, where no whitespace stands.
pub open spec fn lex_at(s: Seq<char>, start: nat) -> Result<Lexed, Failure> {
    if start >= s.len() {
        Ok(Lexed { kind: TokenKind::End, start, end: start })
    } else {
        let ch = s[start as int];
        if is_digit(ch) {
            lex_number(s, start)
        } else if is_variable(ch) {
            lex_variable(s, start)
        } else if is_name(ch) {
            lex_name(s, start)
        } else if ch == '.' {
            Ok(Lexed { kind: TokenKind::Dot, start, end: start + 1 })
        } else if ch == '\\' {
            Ok(Lexed { kind: TokenKind::Lambda, start, end: start + 1 })
        } else if ch == '(' {
            Ok(Lexed { kind: TokenKind::OpenParenth, start, end: start + 1 })
        } else if ch == ')' {
            Ok(Lexed { kind: TokenKind::CloseParenth, start, end: start + 1 })
        } else {
            Err(Failure { position: start, message: msg_invalid_token() })
        }
    }
}

/// The first token of `s` from `pos` on: whitespace is skipped, then the
/// first character decides the kind of the token.
pub open spec fn lex(s: Seq<char>, pos: nat) -> Result<Lexed, Failure> {
    lex_at(s, span_end(s, pos, CharClass::Blank))
}

/// A run ends at or behind its start, inside the text, and where the class
/// no longer holds; all of the run is of the class.
pub proof fn lemma_span_end(s: Seq<char>, pos: nat, class: CharClass)
    requires
        pos <= s.len(),
    ensures
        pos <= span_end(s, pos, class) <= s.len(),
        span_end(s, pos, class) < s.len() ==> !class.holds(s[span_end(s, pos, class) as int]),
        forall|i: int| pos <= i < span_end(s, pos, class) ==> class.holds(#[trigger] s[i]),
    decreases s.len() - pos,
{
    if pos < s.len() && class.holds(s[pos as int]) {
        lemma_span_end(s, pos + 1, class);
    }
}

/// From every offset inside a run, the run ends at the same place.
pub proof fn lemma_span_end_within(s: Seq<char>, pos: nat, mid: nat, class: CharClass)
    requires
        pos <= mid <= s.len(),
        forall|i: int| pos <= i < mid ==> class.holds(#[trigger] s[i]),
    ensures
        span_end(s, pos, class) == span_end(s, mid, class),
    decreases mid - pos,
{
    if pos < mid {
        lemma_span_end_within(s, pos + 1, mid, class);
    }
}

/// A token lies inside the text, behind the offset from which it was read,
/// and every token but the end marker holds at least one character.
pub proof fn lemma_lex_bounds(s: Seq<char>, pos: nat)
    requires
        pos <= s.len(),
    ensures
        lex(s, pos) matches Ok(token) ==> {
            &&& pos <= token.start <= token.end <= s.len()
            &&& token.start == span_end(s, pos, CharClass::Blank)
            &&& (token.kind is End <==> token.start == token.end)
            &&& (token.kind is End ==> token.start == s.len())
            &&& (token.kind matches TokenKind::Letter(letter) ==> lowercase(letter))
        },
        lex(s, pos) matches Err(failure) ==> pos <= failure.position < s.len(),
{
    lemma_span_end(s, pos, CharClass::Blank);
    let start = span_end(s, pos, CharClass::Blank);
    if start < s.len() {
        lemma_span_end(s, start, CharClass::Digit);
        lemma_span_end(s, start, CharClass::NamePart);
    }
}

/// An extended run of digits stands for ten times the number of the run
/// plus the new digit.
proof fn lemma_decimal_value_push(s: Seq<char>, start: nat, end: nat)
    requires
        start <= end < s.len(),
    ensures
        decimal_value(s.subrange(start as int, end as int + 1)) == decimal_value(
            s.subrange(start as int, end as int),
        ) * 10 + digit_value(s[end as int]),
{
    let longer = s.subrange(start as int, end as int + 1);
    assert(longer.drop_last() =~= s.subrange(start as int, end as int));
}

/// A longer run of digits stands for no smaller number.
proof fn lemma_decimal_value_grows(s: Seq<char>, start: nat, mid: nat, end: nat)
    requires
        start <= mid <= end <= s.len(),
    ensures
        decimal_value(s.subrange(start as int, mid as int)) <= decimal_value(
            s.subrange(start as int, end as int),
        ),
    decreases end - mid,
{
    if mid < end {
        lemma_decimal_value_push(s, start, (end - 1) as nat);
        lemma_decimal_value_grows(s, start, mid, (end - 1) as nat);
    }
}

/// A lexer over a text. It hands out the tokens of the text one by one; to
/// read a text again, make a new lexer.
pub struct Lexer {
    chars: Vec<char>,
    position: usize,
}

impl Lexer {
    /// The text that is read.
    pub closed spec fn source(&self) -> Seq<char> {
        self.chars@
    }

    /// The offset of the next character to read.
    pub closed spec fn offset(&self) -> nat {
        self.position as nat
    }

    /// The offset lies inside the text or at its end.
    pub closed spec fn wf(&self) -> bool {
        self.position <= self.chars.len()
    }

    /// A lexer at the start of `source`.
    pub fn new(source: &str) -> (lexer: Lexer)
        ensures
            lexer.wf(),
            lexer.source() == source@,
            lexer.offset() == 0,
    {
        Lexer { chars: chars_of(source), position: 0 }
    }

    /// The next character, if the text has one left.
    pub fn peek_char(&self) -> (next: Option<char>)
        requires
            self.wf(),
        ensures
            next == if self.offset() < self.source().len() {
                Some(self.source()[self.offset() as int])
            } else {
                None
            },
    {
        if self.position < self.chars.len() {
            Some(self.chars[self.position])
        } else {
            None
        }
    }

    /// Steps over one character.
    pub fn advance(&mut self)
        requires
            old(self).wf(),
            old(self).offset() < old(self).source().len(),
        ensures
            final(self).wf(),
            final(self).source() == old(self).source(),
            final(self).offset() == old(self).offset() + 1,
    {
        self.position += 1;
    }

    /// Steps over the whitespace at the current offset.
    pub fn skip_whitespace(&mut self)
        requires
            old(self).wf(),
        ensures
            final(self).wf(),
            final(self).source() == old(self).source(),
            final(self).offset() == span_end(
                old(self).source(),
                old(self).offset(),
                CharClass::Blank,
            ),
    {
        loop
            invariant
                self.wf(),
                self.source() == old(self).source(),
                old(self).offset() <= self.offset(),
                forall|i: int|
                    old(self).offset() <= i < self.offset() ==> CharClass::Blank.holds(
                        #[trigger] self.source()[i],
                    ),
            ensures
                self.offset() == span_end(old(self).source(), old(self).offset(), CharClass::Blank),
            decreases self.source().len() - self.offset(),
        {
            proof {
                lemma_span_end_within(
                    self.source(),
                    old(self).offset(),
                    self.offset(),
                    CharClass::Blank,
                );
            }
            match self.peek_char() {
                Some(ch) => {
                    if is_whitespace(ch) {
                        self.advance();
                    } else {
                        break ;
                    }
                },
                None => {
                    break ;
                },
            }
        }
    }

    /// The token for the punctuation mark at the current offset.
    pub fn punctuation_token(&mut self, contents: TokenContents) -> (token: Token)
        requires
            old(self).wf(),
            old(self).offset() < old(self).source().len(),
        ensures
            final(self).wf(),
            final(self).source() == old(self).source(),
            final(self).offset() == old(self).offset() + 1,
            token.position == old(self).offset(),
            token.contents == contents,
    {
        let start = self.position;
        self.advance();
        Token { position: start, contents }
    }

    /// Reads the name that starts at the current offset, `start`.
    pub fn name_token(&mut self, start: usize) -> (r: Result<Token, LexError>)
        requires
            old(self).wf(),
            start == old(self).offset(),
        ensures
            final(self).wf(),
            final(self).source() == old(self).source(),
            lexed_as(r, lex_name(old(self).source(), start as nat), final(self).offset()),
    {
        let mut name = String::new();
        loop
            invariant
                self.wf(),
                self.source() == old(self).source(),
                start <= self.offset(),
                name@ == self.source().subrange(start as int, self.offset() as int),
                forall|i: int|
                    start <= i < self.offset() ==> CharClass::NamePart.holds(
                        #[trigger] self.source()[i],
                    ),
            decreases self.source().len() - self.offset(),
        {
            proof {
                lemma_span_end_within(
                    self.source(),
                    start as nat,
                    self.offset(),
                    CharClass::NamePart,
                );
            }
            match self.peek_char() {
                Some(ch) => {
                    if is_name(ch) || is_digit(ch) {
                        name.push(ch);
                        self.advance();
                        assert(name@ =~= self.source().subrange(
                            start as int,
                            self.offset() as int,
                        ));
                    } else if is_variable(ch) {
                        return Err(
                            LexError {
                                position: self.position,
                                message: String::from_str(
                                    "names must consist of capital letters and numbers",
                                ),
                            },
                        );
                    } else {
                        return Ok(Token { position: start, contents: TokenContents::Name(name) });
                    }
                },
                None => {
                    return Ok(Token { position: start, contents: TokenContents::Name(name) });
                },
            }
        }
    }

    /// Reads the number that starts at the current offset, `start`.
    pub fn number_token(&mut self, start: usize) -> (r: Result<Token, LexError>)
        requires
            old(self).wf(),
            start == old(self).offset(),
        ensures
            final(self).wf(),
            final(self).source() == old(self).source(),
            lexed_as(r, lex_number(old(self).source(), start as nat), final(self).offset()),
    {
        let mut accumulator: u64 = 0;
        loop
            invariant
                self.wf(),
                self.source() == old(self).source(),
                start <= self.offset(),
                accumulator == decimal_value(
                    self.source().subrange(start as int, self.offset() as int),
                ),
                accumulator <= u32::MAX,
                forall|i: int|
                    start <= i < self.offset() ==> CharClass::Digit.holds(
                        #[trigger] self.source()[i],
                    ),
            decreases self.source().len() - self.offset(),
        {
            proof {
                lemma_span_end_within(
                    self.source(),
                    start as nat,
                    self.offset(),
                    CharClass::Digit,
                );
            }
            match self.peek_char() {
                Some(ch) => {
                    if is_digit(ch) {
                        proof {
                            let s = self.source();
                            let here = self.offset();
                            lemma_decimal_value_push(s, start as nat, here);
                            lemma_span_end(s, here + 1, CharClass::Digit);
                            lemma_decimal_value_grows(
                                s,
                                start as nat,
                                here + 1,
                                span_end(s, here + 1, CharClass::Digit),
                            );
                        }
                        accumulator = accumulator * 10 + (ch as u64 - '0' as u64);
                        if accumulator > u32::MAX as u64 {
                            return Err(
                                LexError {
                                    position: start,
                                    message: String::from_str("integer literal too large"),
                                },
                            );
                        }
                        self.advance();
                    } else if is_variable(ch) || is_name(ch) {
                        return Err(
                            LexError {
                                position: self.position,
                                message: String::from_str("invalid number"),
                            },
                        );
                    } else {
                        return Ok(
                            Token {
                                position: start,
                                contents: TokenContents::Number(accumulator as u32),
                            },
                        );
                    }
                },
                None => {
                    return Ok(
                        Token { position: start, contents: TokenContents::Number(accumulator as u32) },
                    );
                },
            }
        }
    }

    /// Reads the variable whose letter stands at the current offset, `start`.
    pub fn variable_token(&mut self, start: usize) -> (r: Result<Token, LexError>)
        requires
            old(self).wf(),
            start == old(self).offset(),
            start < old(self).source().len(),
        ensures
            final(self).wf(),
            final(self).source() == old(self).source(),
            lexed_as(r, lex_variable(old(self).source(), start as nat), final(self).offset()),
    {
        let var = self.chars[self.position];
        self.advance();
        match self.peek_char() {
            Some(ch) => {
                if is_digit(ch) {
                    Err(
                        LexError {
                            position: self.position,
                            message: String::from_str(
                                "variable can't be immediately followed by a number",
                            ),
                        },
                    )
                } else if is_name(ch) {
                    Err(
                        LexError {
                            position: self.position,
                            message: String::from_str(
                                "variable can't be immediately followed by a name",
                            ),
                        },
                    )
                } else {
                    Ok(Token { position: start, contents: TokenContents::Letter(var) })
                }
            },
            None => Ok(Token { position: start, contents: TokenContents::Letter(var) }),
        }
    }

    /// Reads the next token and steps behind it.
    pub fn next_token(&mut self) -> (r: Result<Token, LexError>)
        requires
            old(self).wf(),
        ensures
            final(self).wf(),
            final(self).source() == old(self).source(),
            lexed_as(r, lex(old(self).source(), old(self).offset()), final(self).offset()),
    {
        self.skip_whitespace();
        let token_start = self.position;
        match self.peek_char() {
            None => Ok(Token { position: token_start, contents: TokenContents::End }),
            Some(ch) => {
                if is_digit(ch) {
                    self.number_token(token_start)
                } else if is_variable(ch) {
                    self.variable_token(token_start)
                } else if is_name(ch) {
                    self.name_token(token_start)
                } else if ch == '.' {
                    Ok(self.punctuation_token(TokenContents::Dot))
                } else if ch == '\\' {
                    Ok(self.punctuation_token(TokenContents::Lambda))
                } else if ch == '(' {
                    Ok(self.punctuation_token(TokenContents::OpenParenth))
                } else if ch == ')' {
                    Ok(self.punctuation_token(TokenContents::CloseParenth))
                } else {
                    Err(LexError { position: token_start, message: String::from_str("invalid token") })
                }
            },
        }
    }
}

/// The outcome `r` of reading a token is the specified one, and after a
/// token the lexer stands at `offset`, just behind it.
pub open spec fn lexed_as(r: Result<Token, LexError>, expected: Result<Lexed, Failure>, offset: nat) -> bool {
    match (r, expected) {
        (Ok(token), Ok(lexed)) => {
            &&& token.contents@ == lexed.kind
            &&& token.position == lexed.start
            &&& offset == lexed.end
        },
        (Err(error), Err(failure)) => error@ == failure,
        _ => false,
    }
}

} // verus!
