//! Church numerals: recognising them and reading their value.

use crate::lexer::{
    decimal_value, digit, lemma_span_end, lex, span_end, CharClass, Failure, Lexed, TokenKind,
};
use crate::parser::{
    church_body, church_numeral, parse_application_spec, parse_node_spec, parse_object_spec,
    parse_unit_spec, Parsed,
};
use crate::reduction::{is_normal, normalize, step, ReduceError};
use crate::term::{AstNode, Term};
use crate::text::{decimal_text, digit_char};
use vstd::prelude::*;

verus! {

/// The number that the body of a Church numeral stands for: the count of
/// applications of the outer parameter around the inner one. `None` for any
/// other shape.
pub open spec fn church_body_value(t: Term) -> Option<nat>
    decreases t,
{
    match t {
        Term::Bound(k) => if k == 0 {
            Some(0)
        } else {
            None
        },
        Term::App(f, x) => if *f == Term::Bound(1) {
            match church_body_value(*x) {
                Some(n) => Some(n + 1),
                None => None,
            }
        } else {
            None
        },
        _ => None,
    }
}

/// The number that `t` stands for as a Church numeral, if it is one: two
/// nested functions around a numeral body.
pub open spec fn church_value(t: Term) -> Option<nat> {
    match t {
        Term::Lam(outer) => match *outer {
            Term::Lam(body) => church_body_value(*body),
            _ => None,
        },
        _ => None,
    }
}

/// What `numeric_value` returns for a term that stands for `value`: the
/// number, if it fits in `u32`.
pub open spec fn numeral_of(value: Option<nat>) -> Option<u32> {
    match value {
        Some(n) => if n <= u32::MAX {
            Some(n as u32)
        } else {
            None
        },
        None => None,
    }
}

/// The value of `node` as a Church numeral. `None` when `node` is no Church
/// numeral, or stands for a number beyond `u32`.
pub fn numeric_value(node: &AstNode) -> (r: Option<u32>)
    ensures
        r == numeral_of(church_value(node@)),
{
    let outer = match node {
        AstNode::Function(body) => body,
        _ => {
            return None;
        },
    };
    assert(node@ == Term::Lam(Box::new(outer@)));
    let inner: &AstNode = match &**outer {
        AstNode::Function(body) => body,
        _ => {
            assert(!(outer@ is Lam));
            return None;
        },
    };
    assert(outer@ == Term::Lam(Box::new(inner@)));
    let mut result: u32 = 0;
    let mut current_node: &AstNode = inner;
    loop
        invariant
            church_body_value(inner@) == (match church_body_value(current_node@) {
                Some(n) => Some((n + result) as nat),
                None => None,
            }),
            church_value(node@) == church_body_value(inner@),
        decreases current_node,
    {
        match current_node {
            AstNode::BoundVariable(index) => {
                if *index == 0 {
                    return Some(result);
                } else {
                    return None;
                }
            },
            AstNode::Application(f, x) => {
                match &**f {
                    AstNode::BoundVariable(index) => {
                        if *index != 1 {
                            return None;
                        }
                    },
                    _ => {
                        return None;
                    },
                }
                assert(f@ == Term::Bound(1));
                if result == u32::MAX {
                    return None;
                }
                current_node = x;
                result += 1;
            },
            _ => {
                return None;
            },
        }
    }
}

/// The body of a Church numeral stands for its number and holds no redex.
pub proof fn lemma_church_body(n: nat)
    ensures
        church_body_value(church_body(n)) == Some(n),
        step(church_body(n)) is None,
    decreases n,
{
    if n > 0 {
        lemma_church_body((n - 1) as nat);
        assert(step(Term::Bound(1)) is None);
    }
}

/// A Church numeral is in normal form, and it stands for the number it was
/// made for.
pub proof fn law_church_numeral_value(n: nat)
    ensures
        is_normal(church_numeral(n)),
        church_value(church_numeral(n)) == Some(n),
{
    lemma_church_body(n);
    assert(step(Term::Lam(Box::new(church_body(n)))) is None);
}

/// A decimal numeral is made of digits, and it stands for its number.
pub proof fn lemma_decimal_text(n: nat)
    ensures
        decimal_text(n).len() >= 1,
        forall|i: int| 0 <= i < decimal_text(n).len() ==> digit(#[trigger] decimal_text(n)[i]),
        decimal_value(decimal_text(n)) == n,
    decreases n,
{
    if n < 10 {
        let text = decimal_text(n);
        assert(text.drop_last() =~= Seq::<char>::empty());
        assert(decimal_value(text.drop_last()) == 0);
    } else {
        lemma_decimal_text(n / 10);
        let text = decimal_text(n);
        assert(text.drop_last() =~= decimal_text(n / 10));
        assert(text.last() == digit_char(n % 10));
    }
}

/// A number literal is read back as the Church numeral of its number, which
/// normalisation leaves as it is and which stands for that number: for
/// every number that a literal can hold, writing it in decimal, reading it,
/// normalising and decoding gives the number again.
pub proof fn law_numeral_round_trip(n: nat, fuel: nat)
    requires
        n <= u32::MAX,
    ensures
        parse_object_spec(decimal_text(n)) == Ok::<Term, Failure>(church_numeral(n)),
        normalize(church_numeral(n), fuel) == Ok::<Term, ReduceError>(church_numeral(n)),
        numeral_of(church_value(church_numeral(n))) == Some(n as u32),
{
    let s = decimal_text(n);
    let len = s.len();
    lemma_decimal_text(n);
    law_church_numeral_value(n);
    assert(span_end(s, 0, CharClass::Blank) == 0) by {
        assert(digit(s[0]));
    }
    assert(span_end(s, 0, CharClass::Digit) == len) by {
        lemma_span_end(s, 0, CharClass::Digit);
        let end = span_end(s, 0, CharClass::Digit);
        if end < len {
            assert(digit(s[end as int]));
        }
    }
    assert(s.subrange(0, len as int) =~= s);
    assert(lex(s, 0) == Ok::<Lexed, Failure>(
        Lexed { kind: TokenKind::Number(n), start: 0, end: len },
    ));
    assert(span_end(s, len, CharClass::Blank) == len);
    assert(lex(s, len) == Ok::<Lexed, Failure>(
        Lexed { kind: TokenKind::End, start: len, end: len },
    ));
    let empty = Seq::<char>::empty();
    assert(parse_unit_spec(s, 0, empty) == Ok::<Parsed, Failure>(
        Parsed { term: church_numeral(n), next: len },
    ));
    assert(parse_application_spec(s, len, empty, church_numeral(n)) == Ok::<
        Parsed,
        Failure,
    >(Parsed { term: church_numeral(n), next: len }));
    assert(parse_node_spec(s, 0, empty) == Ok::<Parsed, Failure>(
        Parsed { term: church_numeral(n), next: len },
    ));
}

} // verus!
