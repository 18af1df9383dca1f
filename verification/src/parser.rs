//! The parser: from tokens to terms, with variables resolved to binder
//! distances while the text is read.

use crate::lexer::{
    lemma_lex_bounds, lex, lowercase, Failure, LexError, Lexed, Lexer, Token, TokenContents,
    TokenKind,
};
use crate::term::{AstNode, Term};
use vstd::prelude::*;
use vstd::string::StringExecFns;

verus! {

/// A failure to read a term.
#[derive(Debug, PartialEq, Eq)]
pub struct ParseError {
    /// The offset, in characters, of the token at which reading failed.
    pub position: usize,
    pub message: String,
}

impl View for ParseError {
    type V = Failure;

    open spec fn view(&self) -> Failure {
        Failure { position: self.position as nat, message: self.message@ }
    }
}

/// A term that was read, with the offset at which reading goes on.
pub ghost struct Parsed {
    pub term: Term,
    pub next: nat,
}

pub open spec fn msg_expected_close() -> Seq<char> {
    "expected name, letter, number, (, or )"@
}

pub open spec fn msg_expected_unit() -> Seq<char> {
    "expected name, letter, number, or ("@
}

pub open spec fn msg_expected_letter_or_dot() -> Seq<char> {
    "expected letter or ."@
}

pub open spec fn msg_expected_letter() -> Seq<char> {
    "expected letter"@
}

pub open spec fn msg_expected_end() -> Seq<char> {
    "expected end of input"@
}

/// The nesting at which `letter` was last bound among `binders`, the
/// parameters of the enclosing functions from the outermost in: the
/// outermost binder has nesting 1. `None` when no binder has that letter.
pub open spec fn bound_depth(binders: Seq<char>, letter: char) -> Option<nat>
    decreases binders.len(),
{
    if binders.len() == 0 {
        None
    } else if binders.last() == letter {
        Some(binders.len())
    } else {
        bound_depth(binders.drop_last(), letter)
    }
}

/// The term for a variable `letter` under `binders`: its distance to the
/// nearest binder of that letter, or a free variable when there is none.
pub open spec fn resolve(binders: Seq<char>, letter: char) -> Term {
    match bound_depth(binders, letter) {
        Some(depth) => Term::Bound((binders.len() - depth) as nat),
        None => Term::Free(letter),
    }
}

/// The body of the Church numeral `n`: the outer parameter applied `n` times
/// to the inner one.
pub open spec fn church_body(n: nat) -> Term
    decreases n,
{
    if n == 0 {
        Term::Bound(0)
    } else {
        Term::App(Box::new(Term::Bound(1)), Box::new(church_body((n - 1) as nat)))
    }
}

/// The Church numeral `n`.
pub open spec fn church_numeral(n: nat) -> Term {
    Term::Lam(Box::new(Term::Lam(Box::new(church_body(n)))))
}

/// The tokens with which a unit can start.
pub open spec fn starts_unit(kind: TokenKind) -> bool {
    kind is OpenParenth || kind is Letter || kind is Number || kind is Name
}

/// Every token but the end marker ends behind the offset from which it was
/// read, and inside the text.
pub proof fn lemma_lex_advances(s: Seq<char>, pos: nat)
    ensures
        lex(s, pos) matches Ok(token) ==> token.kind is End || pos < token.end <= s.len(),
{
    if pos <= s.len() {
        lemma_lex_bounds(s, pos);
    }
}

/// Reading from `pos` went on to `next`, inside the text. Every unit that is
/// read moves on (`lemma_unit_moves_on`); the grammar tests it where
/// it repeats itself behind a unit, so that it is well-founded on its face.
pub open spec fn moved_on(s: Seq<char>, pos: nat, next: nat) -> bool {
    pos < next <= s.len()
}

/// The failure that stands where reading did not move on: it never occurs.
pub open spec fn stuck(pos: nat) -> Failure {
    Failure { position: pos, message: Seq::empty() }
}

/// `unit := '(' node ')' | letter | Name | Number`
pub open spec fn parse_unit_spec(s: Seq<char>, pos: nat, binders: Seq<char>) -> Result<
    Parsed,
    Failure,
>
    decreases s.len() - pos, 0nat,
{
    match lex(s, pos) {
        Err(failure) => Err(failure),
        Ok(token) => match token.kind {
            TokenKind::OpenParenth => {
                proof {
                    lemma_lex_advances(s, pos);
                }
                match parse_node_spec(s, token.end, binders) {
                    Err(failure) => Err(failure),
                    Ok(inner) => match lex(s, inner.next) {
                        Err(failure) => Err(failure),
                        Ok(close) => if close.kind is CloseParenth {
                            Ok(Parsed { term: inner.term, next: close.end })
                        } else {
                            Err(Failure { position: close.start, message: msg_expected_close() })
                        },
                    },
                }
            },
            TokenKind::Number(n) => Ok(Parsed { term: church_numeral(n), next: token.end }),
            TokenKind::Letter(letter) => Ok(
                Parsed { term: resolve(binders, letter), next: token.end },
            ),
            TokenKind::Name(name) => Ok(Parsed { term: Term::Name(name), next: token.end }),
            _ => Err(Failure { position: token.start, message: msg_expected_unit() }),
        },
    }
}

/// `lambda_tail := '.' node | letter lambda_tail`, read from the parameter
/// on: the parameter is bound in what follows it.
pub open spec fn parse_function_spec(s: Seq<char>, pos: nat, binders: Seq<char>) -> Result<
    Parsed,
    Failure,
>
    decreases s.len() - pos, 0nat,
{
    match lex(s, pos) {
        Err(failure) => Err(failure),
        Ok(token) => match token.kind {
            TokenKind::Letter(letter) => {
                let inside = binders.push(letter);
                proof {
                    lemma_lex_advances(s, pos);
                    lemma_lex_advances(s, token.end);
                }
                match lex(s, token.end) {
                    Err(failure) => Err(failure),
                    Ok(after) => {
                        let body = match after.kind {
                            TokenKind::Dot => parse_node_spec(s, after.end, inside),
                            TokenKind::Letter(_) => parse_function_spec(s, token.end, inside),
                            _ => Err(
                                Failure {
                                    position: after.start,
                                    message: msg_expected_letter_or_dot(),
                                },
                            ),
                        };
                        match body {
                            Err(failure) => Err(failure),
                            Ok(parsed) => Ok(
                                Parsed { term: Term::Lam(Box::new(parsed.term)), next: parsed.next },
                            ),
                        }
                    },
                }
            },
            _ => Err(Failure { position: token.start, message: msg_expected_letter() }),
        },
    }
}

/// `application := unit unit*`, from the second unit on: `left` is what the
/// units read so far make, applied left to right.
pub open spec fn parse_application_spec(
    s: Seq<char>,
    pos: nat,
    binders: Seq<char>,
    left: Term,
) -> Result<Parsed, Failure>
    decreases s.len() - pos, 1nat,
{
    match lex(s, pos) {
        Err(failure) => Err(failure),
        Ok(token) => if starts_unit(token.kind) {
            match parse_unit_spec(s, pos, binders) {
                Err(failure) => Err(failure),
                Ok(unit) => if moved_on(s, pos, unit.next) {
                    parse_application_spec(
                        s,
                        unit.next,
                        binders,
                        Term::App(Box::new(left), Box::new(unit.term)),
                    )
                } else {
                    Err(stuck(pos))
                },
            }
        } else {
            Ok(Parsed { term: left, next: pos })
        },
    }
}

/// `node := '\' letter lambda_tail | application`
pub open spec fn parse_node_spec(s: Seq<char>, pos: nat, binders: Seq<char>) -> Result<
    Parsed,
    Failure,
>
    decreases s.len() - pos, 2nat,
{
    match lex(s, pos) {
        Err(failure) => Err(failure),
        Ok(token) => if token.kind is Lambda {
            proof {
                lemma_lex_advances(s, pos);
            }
            parse_function_spec(s, token.end, binders)
        } else {
            match parse_unit_spec(s, pos, binders) {
                Err(failure) => Err(failure),
                Ok(first) => if moved_on(s, pos, first.next) {
                    parse_application_spec(s, first.next, binders, first.term)
                } else {
                    Err(stuck(pos))
                },
            }
        },
    }
}

/// The term that the whole of `s` stands for: one node, under no binder,
/// with nothing but whitespace behind it.
pub open spec fn parse_object_spec(s: Seq<char>) -> Result<Term, Failure> {
    match parse_node_spec(s, 0, Seq::empty()) {
        Err(failure) => Err(failure),
        Ok(parsed) => match lex(s, parsed.next) {
            Err(failure) => Err(failure),
            Ok(token) => if token.kind is End {
                Ok(parsed.term)
            } else {
                Err(Failure { position: token.start, message: msg_expected_end() })
            },
        },
    }
}

/// A unit that is read ends behind the offset at which it starts.
pub proof fn lemma_unit_moves_on(s: Seq<char>, pos: nat, binders: Seq<char>)
    requires
        pos <= s.len(),
    ensures
        parse_unit_spec(s, pos, binders) matches Ok(unit) ==> moved_on(s, pos, unit.next),
    decreases s.len() - pos, 0nat,
{
    lemma_lex_bounds(s, pos);
    match lex(s, pos) {
        Ok(token) => {
            if token.kind is OpenParenth {
                lemma_node_moves_on(s, token.end, binders);
                match parse_node_spec(s, token.end, binders) {
                    Ok(inner) => {
                        lemma_lex_bounds(s, inner.next);
                    },
                    Err(_) => {},
                }
            }
        },
        Err(_) => {},
    }
}

/// A function that is read ends behind the offset of its parameter.
pub proof fn lemma_function_moves_on(s: Seq<char>, pos: nat, binders: Seq<char>)
    requires
        pos <= s.len(),
    ensures
        parse_function_spec(s, pos, binders) matches Ok(parsed) ==> moved_on(s, pos, parsed.next),
    decreases s.len() - pos, 0nat,
{
    lemma_lex_bounds(s, pos);
    match lex(s, pos) {
        Ok(token) => {
            if let TokenKind::Letter(letter) = token.kind {
                lemma_lex_bounds(s, token.end);
                match lex(s, token.end) {
                    Ok(after) => {
                        if after.kind is Dot {
                            lemma_node_moves_on(s, after.end, binders.push(letter));
                        } else if after.kind is Letter {
                            lemma_function_moves_on(s, token.end, binders.push(letter));
                        }
                    },
                    Err(_) => {},
                }
            }
        },
        Err(_) => {},
    }
}

/// The units of an application end inside the text, at or behind the offset
/// from which they are read.
pub proof fn lemma_application_moves_on(s: Seq<char>, pos: nat, binders: Seq<char>, left: Term)
    requires
        pos <= s.len(),
    ensures
        parse_application_spec(s, pos, binders, left) matches Ok(parsed) ==> pos <= parsed.next
            <= s.len(),
    decreases s.len() - pos, 1nat,
{
    match lex(s, pos) {
        Ok(token) => {
            if starts_unit(token.kind) {
                lemma_unit_moves_on(s, pos, binders);
                match parse_unit_spec(s, pos, binders) {
                    Ok(unit) => {
                        lemma_application_moves_on(
                            s,
                            unit.next,
                            binders,
                            Term::App(Box::new(left), Box::new(unit.term)),
                        );
                    },
                    Err(_) => {},
                }
            }
        },
        Err(_) => {},
    }
}

/// A node that is read ends behind the offset at which it starts.
pub proof fn lemma_node_moves_on(s: Seq<char>, pos: nat, binders: Seq<char>)
    requires
        pos <= s.len(),
    ensures
        parse_node_spec(s, pos, binders) matches Ok(parsed) ==> moved_on(s, pos, parsed.next),
    decreases s.len() - pos, 2nat,
{
    lemma_lex_bounds(s, pos);
    match lex(s, pos) {
        Ok(token) => {
            if token.kind is Lambda {
                lemma_function_moves_on(s, token.end, binders);
            } else {
                lemma_unit_moves_on(s, pos, binders);
                match parse_unit_spec(s, pos, binders) {
                    Ok(first) => {
                        lemma_application_moves_on(s, first.next, binders, first.term);
                    },
                    Err(_) => {},
                }
            }
        },
        Err(_) => {},
    }
}

/// The body of a Church numeral refers to the two binders of the numeral.
pub proof fn lemma_church_body_scoped(n: nat, depth: nat)
    requires
        depth >= 2,
    ensures
        church_body(n).scoped(depth),
    decreases n,
{
    if n > 0 {
        lemma_church_body_scoped((n - 1) as nat, depth);
        assert(Term::Bound(1).scoped(depth));
    }
}

/// A unit that is read refers to no binder but those around it.
pub proof fn lemma_unit_scoped(s: Seq<char>, pos: nat, binders: Seq<char>)
    requires
        pos <= s.len(),
    ensures
        parse_unit_spec(s, pos, binders) matches Ok(unit) ==> unit.term.scoped(binders.len()),
    decreases s.len() - pos, 0nat,
{
    lemma_lex_bounds(s, pos);
    match lex(s, pos) {
        Ok(token) => {
            match token.kind {
                TokenKind::OpenParenth => {
                    lemma_node_scoped(s, token.end, binders);
                },
                TokenKind::Number(n) => {
                    lemma_church_body_scoped(n, binders.len() + 2);
                    assert(Term::Lam(Box::new(church_body(n))).scoped(binders.len() + 1));
                },
                TokenKind::Letter(letter) => {
                    lemma_bound_depth_range(binders, letter);
                },
                _ => {},
            }
        },
        Err(_) => {},
    }
}

/// A function that is read refers to no binder but those around it.
pub proof fn lemma_function_scoped(s: Seq<char>, pos: nat, binders: Seq<char>)
    requires
        pos <= s.len(),
    ensures
        parse_function_spec(s, pos, binders) matches Ok(parsed) ==> parsed.term.scoped(
            binders.len(),
        ),
    decreases s.len() - pos, 0nat,
{
    lemma_lex_bounds(s, pos);
    match lex(s, pos) {
        Ok(token) => {
            if let TokenKind::Letter(letter) = token.kind {
                lemma_lex_bounds(s, token.end);
                match lex(s, token.end) {
                    Ok(after) => {
                        if after.kind is Dot {
                            lemma_node_scoped(s, after.end, binders.push(letter));
                        } else if after.kind is Letter {
                            lemma_function_scoped(s, token.end, binders.push(letter));
                        }
                    },
                    Err(_) => {},
                }
            }
        },
        Err(_) => {},
    }
}

/// An application that is read refers to no binder but those around it.
pub proof fn lemma_application_scoped(s: Seq<char>, pos: nat, binders: Seq<char>, left: Term)
    requires
        pos <= s.len(),
        left.scoped(binders.len()),
    ensures
        parse_application_spec(s, pos, binders, left) matches Ok(parsed) ==> parsed.term.scoped(
            binders.len(),
        ),
    decreases s.len() - pos, 1nat,
{
    match lex(s, pos) {
        Ok(token) => {
            if starts_unit(token.kind) {
                lemma_unit_moves_on(s, pos, binders);
                lemma_unit_scoped(s, pos, binders);
                match parse_unit_spec(s, pos, binders) {
                    Ok(unit) => {
                        lemma_application_scoped(
                            s,
                            unit.next,
                            binders,
                            Term::App(Box::new(left), Box::new(unit.term)),
                        );
                    },
                    Err(_) => {},
                }
            }
        },
        Err(_) => {},
    }
}

/// A node that is read refers to no binder but those around it.
pub proof fn lemma_node_scoped(s: Seq<char>, pos: nat, binders: Seq<char>)
    requires
        pos <= s.len(),
    ensures
        parse_node_spec(s, pos, binders) matches Ok(parsed) ==> parsed.term.scoped(binders.len()),
    decreases s.len() - pos, 2nat,
{
    lemma_lex_bounds(s, pos);
    match lex(s, pos) {
        Ok(token) => {
            if token.kind is Lambda {
                lemma_function_scoped(s, token.end, binders);
            } else {
                lemma_unit_moves_on(s, pos, binders);
                lemma_unit_scoped(s, pos, binders);
                match parse_unit_spec(s, pos, binders) {
                    Ok(first) => {
                        lemma_application_scoped(s, first.next, binders, first.term);
                    },
                    Err(_) => {},
                }
            }
        },
        Err(_) => {},
    }
}

/// Every term that is read is closed: each of its indices refers to one of
/// its own binders, and a letter that no binder binds is a free variable.
pub proof fn law_parsed_term_is_closed(s: Seq<char>)
    ensures
        parse_object_spec(s) matches Ok(term) ==> term.is_closed(),
{
    lemma_node_scoped(s, 0, Seq::empty());
}

/// The nesting at which a letter is bound is that of one of the binders.
pub proof fn lemma_bound_depth_range(binders: Seq<char>, letter: char)
    ensures
        bound_depth(binders, letter) matches Some(depth) ==> 1 <= depth <= binders.len(),
    decreases binders.len(),
{
    if binders.len() > 0 && binders.last() != letter {
        lemma_bound_depth_range(binders.drop_last(), letter);
    }
}

/// The slot of a lower-case letter in the scope table.
pub open spec fn slot(letter: char) -> int {
    letter as int - 'a' as int
}

/// What the scope table holds for `letter` under `binders`.
pub open spec fn scope_entry(binders: Seq<char>, letter: char) -> Option<u32> {
    match bound_depth(binders, letter) {
        Some(depth) => Some(depth as u32),
        None => None,
    }
}

/// The scope table holds, for each lower-case letter, the nesting at which
/// it was last bound.
pub open spec fn table_matches(table: Seq<Option<u32>>, binders: Seq<char>) -> bool {
    &&& table.len() == 26
    &&& forall|letter: char|
        lowercase(letter) ==> table[slot(letter)] == #[trigger] scope_entry(binders, letter)
}

/// The state of a parse: the lexer, the token that was looked at and not yet
/// taken, and the scope of the letters.
pub struct Parser {
    lexer: Lexer,
    next_token: Token,
    has_token: bool,
    bind_depths: Vec<Option<u32>>,
    current_depth: u32,
    cursor: Ghost<nat>,
    binders: Ghost<Seq<char>>,
}

impl Parser {
    /// The text that is read.
    pub closed spec fn source(&self) -> Seq<char> {
        self.lexer.source()
    }

    /// The offset behind the last token that was taken.
    pub closed spec fn cursor(&self) -> nat {
        self.cursor@
    }

    /// The parameters of the functions that are being read, from the
    /// outermost in.
    pub closed spec fn binders(&self) -> Seq<char> {
        self.binders@
    }

    /// A token was looked at and not yet taken.
    pub closed spec fn peeked(&self) -> bool {
        self.has_token
    }

    /// The offset of the token that was read last, which is where an error
    /// is reported.
    pub closed spec fn last_start(&self) -> nat {
        self.next_token.position as nat
    }

    /// The state is consistent: the scope table and the depth counter agree
    /// with the binders, a token that was looked at is the one at the cursor,
    /// and every binder has had its letter read.
    pub closed spec fn wf(&self) -> bool {
        &&& self.lexer.wf()
        &&& self.lexer.source().len() <= u32::MAX
        &&& self.current_depth == self.binders@.len()
        &&& self.binders@.len() <= self.cursor@ <= self.lexer.source().len()
        &&& table_matches(self.bind_depths@, self.binders@)
        &&& if self.has_token {
            lex(self.lexer.source(), self.cursor@) == Ok::<Lexed, Failure>(
                Lexed {
                    kind: self.next_token.contents@,
                    start: self.next_token.position as nat,
                    end: self.lexer.offset(),
                },
            )
        } else {
            self.cursor@ == self.lexer.offset()
        }
    }

    /// The parse goes on in the same text, at the same place and in the same
    /// scope as `other`.
    pub open spec fn same_place(&self, other: &Parser) -> bool {
        &&& self.source() == other.source()
        &&& self.cursor() == other.cursor()
        &&& self.binders() == other.binders()
    }

    /// A parser at the start of `source`, under no binder.
    pub fn new(source: &str) -> (parser: Parser)
        requires
            source@.len() <= u32::MAX,
        ensures
            parser.wf(),
            parser.source() == source@,
            parser.cursor() == 0,
            parser.binders() == Seq::<char>::empty(),
    {
        let mut bind_depths: Vec<Option<u32>> = Vec::new();
        while bind_depths.len() < 26
            invariant
                bind_depths.len() <= 26,
                forall|i: int| 0 <= i < bind_depths.len() ==> bind_depths[i] is None,
            decreases 26 - bind_depths.len(),
        {
            bind_depths.push(None);
        }
        Parser {
            lexer: Lexer::new(source),
            next_token: Token { position: 0, contents: TokenContents::End },
            has_token: false,
            bind_depths,
            current_depth: 0,
            cursor: Ghost(0),
            binders: Ghost(Seq::empty()),
        }
    }

    /// Looks at the next token without taking it.
    pub fn peek(&mut self) -> (r: Result<&Token, ParseError>)
        requires
            old(self).wf(),
        ensures
            match lex(old(self).source(), old(self).cursor()) {
                Ok(lexed) => {
                    &&& r matches Ok(token)
                    &&& token.contents@ == lexed.kind
                    &&& token.position == lexed.start
                    &&& final(self).wf()
                    &&& final(self).same_place(old(self))
                    &&& final(self).peeked()
                    &&& final(self).last_start() == lexed.start
                },
                Err(failure) => r matches Err(error) && error@ == failure,
            },
    {
        if !self.has_token {
            match self.lexer.next_token() {
                Ok(token) => {
                    self.next_token = token;
                },
                Err(error) => {
                    return Err(ParseError { position: error.position, message: error.message });
                },
            }
            self.has_token = true;
        }
        Ok(&self.next_token)
    }

    /// Takes the next token.
    pub fn consume(&mut self) -> (r: Result<Token, ParseError>)
        requires
            old(self).wf(),
        ensures
            match lex(old(self).source(), old(self).cursor()) {
                Ok(lexed) => {
                    &&& r matches Ok(token)
                    &&& token.contents@ == lexed.kind
                    &&& token.position == lexed.start
                    &&& final(self).wf()
                    &&& final(self).source() == old(self).source()
                    &&& final(self).binders() == old(self).binders()
                    &&& final(self).cursor() == lexed.end
                    &&& !final(self).peeked()
                    &&& final(self).last_start() == lexed.start
                },
                Err(failure) => r matches Err(error) && error@ == failure,
            },
    {
        if !self.has_token {
            match self.peek() {
                Ok(_) => {},
                Err(error) => {
                    return Err(error);
                },
            }
        }
        proof {
            lemma_lex_bounds(self.source(), self.cursor());
        }
        let mut token = Token { position: self.next_token.position, contents: TokenContents::End };
        core::mem::swap(&mut self.next_token, &mut token);
        self.has_token = false;
        self.cursor = Ghost(self.lexer.offset());
        Ok(token)
    }

    /// An error at the token that was read last.
    pub fn error(&self, message: String) -> (error: ParseError)
        ensures
            error.position == self.last_start(),
            error.message == message,
    {
        ParseError { position: self.next_token.position, message }
    }
}

/// The Church numeral for `num`: two nested functions around `num`
/// applications of the outer parameter to the inner one.
pub fn create_church_numeral(num: u32) -> (node: AstNode)
    ensures
        node@ == church_numeral(num as nat),
{
    let mut node = AstNode::BoundVariable(0);
    let mut count: u32 = 0;
    while count < num
        invariant
            count <= num,
            node@ == church_body(count as nat),
        decreases num - count,
    {
        let outer = AstNode::BoundVariable(1);
        assert(outer@ == Term::Bound(1));
        node = AstNode::Application(Box::new(outer), Box::new(node));
        count += 1;
    }
    let inner = AstNode::Function(Box::new(node));
    assert(inner@ == Term::Lam(Box::new(church_body(num as nat))));
    AstNode::Function(Box::new(inner))
}

/// Sets the entry of the letter `key` in a scope table to `value`, which
/// binds the letter or leaves it unbound.
pub fn map_optional_insert(map: &mut Vec<Option<u32>>, key: char, value: Option<u32>)
    requires
        old(map).len() == 26,
        lowercase(key),
    ensures
        final(map)@ == old(map)@.update(slot(key), value),
{
    let index = (key as u8 - 97u8) as usize;
    map.set(index, value);
}

/// Entering a function: the entry of its letter is set to the new nesting.
proof fn lemma_table_push(table: Seq<Option<u32>>, binders: Seq<char>, letter: char)
    requires
        table_matches(table, binders),
        lowercase(letter),
        binders.len() < u32::MAX,
    ensures
        table_matches(
            table.update(slot(letter), Some((binders.len() + 1) as u32)),
            binders.push(letter),
        ),
{
    let inside = binders.push(letter);
    assert(inside.drop_last() =~= binders);
    assert forall|other: char| lowercase(other) implies table.update(
        slot(letter),
        Some((binders.len() + 1) as u32),
    )[slot(other)] == #[trigger] scope_entry(inside, other) by {
        assert(table[slot(other)] == scope_entry(binders, other));
    }
}

/// Leaving a function: the entry of its letter is set back to what it was.
proof fn lemma_table_pop(
    table: Seq<Option<u32>>,
    binders: Seq<char>,
    letter: char,
    entry: Option<u32>,
)
    requires
        table_matches(table, binders.push(letter)),
        lowercase(letter),
        entry == scope_entry(binders, letter),
    ensures
        table_matches(table.update(slot(letter), entry), binders),
{
    let inside = binders.push(letter);
    assert(inside.drop_last() =~= binders);
    assert forall|other: char| lowercase(other) implies table.update(slot(letter), entry)[slot(
        other,
    )] == #[trigger] scope_entry(binders, other) by {
        assert(table[slot(other)] == scope_entry(inside, other));
    }
}

/// The outcome `r` of reading a piece of the grammar is the specified one,
/// and after a success the parse stands behind the piece, in the scope in
/// which it started.
pub open spec fn parsed_as(
    r: Result<AstNode, ParseError>,
    expected: Result<Parsed, Failure>,
    before: &Parser,
    after: &Parser,
) -> bool {
    match (r, expected) {
        (Ok(node), Ok(parsed)) => {
            &&& node@ == parsed.term
            &&& after.wf()
            &&& after.source() == before.source()
            &&& after.binders() == before.binders()
            &&& after.cursor() == parsed.next
        },
        (Err(error), Err(failure)) => error@ == failure,
        _ => false,
    }
}

/// Reads a unit: a term in parentheses, a variable, a name or a number.
pub fn parse_unit(parser: &mut Parser) -> (r: Result<AstNode, ParseError>)
    requires
        old(parser).wf(),
    ensures
        parsed_as(
            r,
            parse_unit_spec(old(parser).source(), old(parser).cursor(), old(parser).binders()),
            old(parser),
            final(parser),
        ),
    decreases old(parser).source().len() - old(parser).cursor(), 0nat,
{
    proof {
        lemma_lex_bounds(parser.source(), parser.cursor());
    }
    let token = match parser.consume() {
        Ok(token) => token,
        Err(error) => {
            return Err(error);
        },
    };
    match token.contents {
        TokenContents::OpenParenth => {
            let node = match parse_node(parser) {
                Ok(node) => node,
                Err(error) => {
                    return Err(error);
                },
            };
            let close_parenth = match parser.consume() {
                Ok(token) => token,
                Err(error) => {
                    return Err(error);
                },
            };
            match close_parenth.contents {
                TokenContents::CloseParenth => Ok(node),
                _ => Err(parser.error(String::from_str("expected name, letter, number, (, or )"))),
            }
        },
        TokenContents::Number(num) => Ok(create_church_numeral(num)),
        TokenContents::Letter(ch) => {
            proof {
                lemma_bound_depth_range(parser.binders(), ch);
            }
            let index = (ch as u8 - 97u8) as usize;
            match parser.bind_depths[index] {
                Some(depth) => {
                    assert(Some(depth) == scope_entry(parser.binders(), ch));
                    Ok(AstNode::BoundVariable(parser.current_depth - depth))
                },
                None => {
                    assert(scope_entry(parser.binders(), ch) is None);
                    Ok(AstNode::FreeVariable(ch))
                },
            }
        },
        TokenContents::Name(s) => Ok(AstNode::Name(s)),
        _ => Err(parser.error(String::from_str("expected name, letter, number, or ("))),
    }
}

/// Reads a function from its parameter on: the parameter, then either a dot
/// and the body, or the next parameter of a curried function.
pub fn parse_function(parser: &mut Parser) -> (r: Result<AstNode, ParseError>)
    requires
        old(parser).wf(),
    ensures
        parsed_as(
            r,
            parse_function_spec(old(parser).source(), old(parser).cursor(), old(parser).binders()),
            old(parser),
            final(parser),
        ),
    decreases old(parser).source().len() - old(parser).cursor(), 0nat,
{
    proof {
        lemma_lex_bounds(parser.source(), parser.cursor());
    }
    let token = match parser.consume() {
        Ok(token) => token,
        Err(error) => {
            return Err(error);
        },
    };
    match token.contents {
        TokenContents::Letter(ch) => {
            let ghost outside = parser.binders();
            proof {
                lemma_table_push(parser.bind_depths@, outside, ch);
                lemma_lex_bounds(parser.source(), parser.cursor());
            }
            parser.current_depth += 1;
            let index = (ch as u8 - 97u8) as usize;
            let old_entry = parser.bind_depths[index];
            assert(old_entry == scope_entry(outside, ch));
            parser.bind_depths.set(index, Some(parser.current_depth));
            parser.binders = Ghost(outside.push(ch));

            let dot_follows = match parser.peek() {
                Ok(after) => match after.contents {
                    TokenContents::Dot => Some(true),
                    TokenContents::Letter(_) => Some(false),
                    _ => None,
                },
                Err(error) => {
                    return Err(error);
                },
            };
            let body = match dot_follows {
                Some(true) => {
                    let _ = parser.consume();
                    match parse_node(parser) {
                        Ok(body) => body,
                        Err(error) => {
                            return Err(error);
                        },
                    }
                },
                Some(false) => {
                    match parse_function(parser) {
                        Ok(body) => body,
                        Err(error) => {
                            return Err(error);
                        },
                    }
                },
                None => {
                    return Err(parser.error(String::from_str("expected letter or .")));
                },
            };

            proof {
                lemma_table_pop(parser.bind_depths@, outside, ch, old_entry);
            }
            parser.current_depth -= 1;
            map_optional_insert(&mut parser.bind_depths, ch, old_entry);
            parser.binders = Ghost(outside);
            Ok(AstNode::Function(Box::new(body)))
        },
        _ => Err(parser.error(String::from_str("expected letter"))),
    }
}

/// Reads a node: a function, or an application of one or more units, left
/// to right.
pub fn parse_node(parser: &mut Parser) -> (r: Result<AstNode, ParseError>)
    requires
        old(parser).wf(),
    ensures
        parsed_as(
            r,
            parse_node_spec(old(parser).source(), old(parser).cursor(), old(parser).binders()),
            old(parser),
            final(parser),
        ),
    decreases old(parser).source().len() - old(parser).cursor(), 2nat,
{
    proof {
        lemma_lex_bounds(parser.source(), parser.cursor());
        lemma_unit_moves_on(parser.source(), parser.cursor(), parser.binders());
    }
    let is_lambda = match parser.peek() {
        Ok(token) => matches!(token.contents, TokenContents::Lambda),
        Err(error) => {
            return Err(error);
        },
    };
    if is_lambda {
        let _ = parser.consume();
        return parse_function(parser);
    }
    let mut result = match parse_unit(parser) {
        Ok(first) => first,
        Err(error) => {
            return Err(error);
        },
    };

    loop
        invariant
            parser.wf(),
            parser.source() == old(parser).source(),
            parser.binders() == old(parser).binders(),
            old(parser).cursor() < parser.cursor(),
            parse_application_spec(parser.source(), parser.cursor(), parser.binders(), result@)
                == parse_node_spec(
                old(parser).source(),
                old(parser).cursor(),
                old(parser).binders(),
            ),
        decreases parser.source().len() - parser.cursor(),
    {
        proof {
            lemma_lex_bounds(parser.source(), parser.cursor());
            lemma_unit_moves_on(parser.source(), parser.cursor(), parser.binders());
        }
        let goes_on = match parser.peek() {
            Ok(token) => match token.contents {
                TokenContents::OpenParenth
                | TokenContents::Letter(_)
                | TokenContents::Number(_)
                | TokenContents::Name(_) => true,
                _ => false,
            },
            Err(error) => {
                return Err(error);
            },
        };
        if !goes_on {
            return Ok(result);
        }
        let next_unit = match parse_unit(parser) {
            Ok(unit) => unit,
            Err(error) => {
                return Err(error);
            },
        };
        result = AstNode::Application(Box::new(result), Box::new(next_unit));
    }
}

/// Reads `source` as one term.
pub fn parse_object(source: &str) -> (r: Result<AstNode, ParseError>)
    requires
        source@.len() <= u32::MAX,
    ensures
        match parse_object_spec(source@) {
            Ok(term) => r matches Ok(node) && node@ == term,
            Err(failure) => r matches Err(error) && error@ == failure,
        },
{
    let mut parser = Parser::new(source);
    let node = match parse_node(&mut parser) {
        Ok(node) => node,
        Err(error) => {
            return Err(error);
        },
    };
    let at_end = match parser.peek() {
        Ok(token) => matches!(token.contents, TokenContents::End),
        Err(error) => {
            return Err(error);
        },
    };
    if at_end {
        Ok(node)
    } else {
        Err(parser.error(String::from_str("expected end of input")))
    }
}

} // verus!
