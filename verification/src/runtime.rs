//! The session: named definitions, and the evaluation of one input line.

use crate::lexer::{digit, is_digit, is_name, uppercase, Failure};
use crate::numeral::{church_value, numeral_of, numeric_value};
use crate::parser::{parse_object, parse_object_spec, ParseError};
use crate::printer::{pretty_print, render};
use crate::reduction::{beta_reduce, normalize, ReduceError};
use crate::term::{AstNode, Term};
use crate::text::{
    blanks, chars_of, decimal_text, push_blanks, push_decimal, string_of_range, trimmed,
};
use vstd::prelude::*;
use vstd::string::StringExecFns;

verus! {

/// A binding sign stands at offset `i` of `s`: a colon at `i - 1` and an
/// equals sign at `i`.
pub open spec fn binding_at(s: Seq<char>, i: int) -> bool {
    0 < i < s.len() && s[i - 1] == ':' && s[i] == '='
}

/// The offset of the first binding sign of `s` from `from` on.
pub open spec fn find_binding(s: Seq<char>, from: int) -> Option<int>
    decreases s.len() - from,
{
    if from >= s.len() {
        None
    } else if binding_at(s, from) {
        Some(from)
    } else {
        find_binding(s, from + 1)
    }
}

/// The two sides of the first binding sign of `line`, if it has one: what
/// stands before the colon and what stands behind the equals sign.
pub open spec fn split_spec(line: Seq<char>) -> Option<(Seq<char>, Seq<char>)> {
    match find_binding(line, 0) {
        Some(i) => Some((line.subrange(0, i - 1), line.subrange(i + 1, line.len() as int))),
        None => None,
    }
}

/// `find_binding` finds the first binding sign from `from` on, and finds
/// none only where there is none.
pub proof fn lemma_find_binding(s: Seq<char>, from: int)
    requires
        0 <= from,
    ensures
        match find_binding(s, from) {
            Some(i) => from <= i && binding_at(s, i) && forall|j: int|
                from <= j < i ==> !binding_at(s, j),
            None => forall|j: int| from <= j ==> !binding_at(s, j),
        },
    decreases s.len() - from,
{
    if from < s.len() && !binding_at(s, from) {
        lemma_find_binding(s, from + 1);
    }
}

/// Splits a line at its first binding sign `:=`.
pub fn split_by_binding(line: &str) -> (r: Option<(String, String)>)
    ensures
        match split_spec(line@) {
            Some((name, expression)) => r matches Some(sides) && sides.0@ == name && sides.1@
                == expression,
            None => r is None,
        },
{
    let chars = chars_of(line);
    let mut last: char = ' ';
    let mut index: usize = 0;
    while index < chars.len()
        invariant
            chars@ == line@,
            index <= chars.len(),
            index > 0 ==> last == chars[index - 1],
            index == 0 ==> last == ' ',
            find_binding(line@, 0) == find_binding(line@, index as int),
        decreases chars.len() - index,
    {
        let ch = chars[index];
        if ch == '=' && last == ':' {
            let first = string_of_range(&chars, 0, index - 1);
            let second = string_of_range(&chars, index + 1, chars.len());
            return Some((first, second));
        }
        index += 1;
        last = ch;
    }
    None
}

/// Why a name cannot be bound.
#[derive(Debug, Clone, Copy, PartialEq, Eq, Structural)]
pub enum ValidationError {
    EmptyName,
    InvalidName,
}

/// A name is made of upper-case letters and digits and starts with a letter.
pub open spec fn name_validity(name: Seq<char>) -> Result<(), ValidationError> {
    if name.len() == 0 {
        Err(ValidationError::EmptyName)
    } else if (forall|i: int| 0 <= i < name.len() ==> uppercase(name[i]) || digit(name[i]))
        && uppercase(name[0]) {
        Ok(())
    } else {
        Err(ValidationError::InvalidName)
    }
}

/// Tells whether `name` can be bound.
pub fn validate_name(name: &str) -> (r: Result<(), ValidationError>)
    ensures
        r == name_validity(name@),
{
    let chars = chars_of(name);
    if chars.len() == 0 {
        return Err(ValidationError::EmptyName);
    }
    let mut index: usize = 0;
    while index < chars.len()
        invariant
            chars@ == name@,
            index <= chars.len(),
            forall|i: int| 0 <= i < index ==> uppercase(chars[i]) || digit(chars[i]),
        decreases chars.len() - index,
    {
        let ch = chars[index];
        if !is_digit(ch) && !is_name(ch) {
            return Err(ValidationError::InvalidName);
        }
        index += 1;
    }
    if !is_name(chars[0]) {
        return Err(ValidationError::InvalidName);
    }
    Ok(())
}

impl ValidationError {
    pub open spec fn message_spec(self) -> Seq<char> {
        match self {
            ValidationError::EmptyName => "name cannot be empty"@,
            ValidationError::InvalidName => "invalid name"@,
        }
    }

    /// The words in which the error is reported.
    pub fn message(&self) -> (text: String)
        ensures
            text@ == self.message_spec(),
    {
        match self {
            ValidationError::EmptyName => String::from_str("name cannot be empty"),
            ValidationError::InvalidName => String::from_str("invalid name"),
        }
    }
}

/// The definitions of a sequence of bindings: a later binding of a name
/// replaces an earlier one.
pub open spec fn env_of(entries: Seq<(Seq<char>, Term)>) -> Map<Seq<char>, Term>
    decreases entries.len(),
{
    if entries.len() == 0 {
        Map::empty()
    } else {
        env_of(entries.drop_last()).insert(entries.last().0, entries.last().1)
    }
}

/// No name is bound twice.
pub open spec fn names_unique(entries: Seq<(Seq<char>, Term)>) -> bool {
    forall|i: int, j: int| 0 <= i < j < entries.len() ==> entries[i].0 != entries[j].0
}

/// A sequence of bindings binds finitely many names.
proof fn lemma_env_finite(entries: Seq<(Seq<char>, Term)>)
    ensures
        env_of(entries).dom().finite(),
    decreases entries.len(),
{
    if entries.len() > 0 {
        lemma_env_finite(entries.drop_last());
    }
}

/// A name that no binding has is not bound.
proof fn lemma_env_absent(entries: Seq<(Seq<char>, Term)>, name: Seq<char>)
    requires
        forall|i: int| 0 <= i < entries.len() ==> entries[i].0 != name,
    ensures
        !env_of(entries).dom().contains(name),
    decreases entries.len(),
{
    if entries.len() > 0 {
        lemma_env_absent(entries.drop_last(), name);
    }
}

/// Where no name is bound twice, each binding is what its name stands for.
proof fn lemma_env_lookup(entries: Seq<(Seq<char>, Term)>, i: int)
    requires
        names_unique(entries),
        0 <= i < entries.len(),
    ensures
        env_of(entries).dom().contains(entries[i].0),
        env_of(entries)[entries[i].0] == entries[i].1,
    decreases entries.len(),
{
    if i < entries.len() - 1 {
        lemma_env_lookup(entries.drop_last(), i);
    }
}

/// Replacing the term of a binding in place rebinds its name and nothing
/// else.
proof fn lemma_env_update(entries: Seq<(Seq<char>, Term)>, i: int, term: Term)
    requires
        names_unique(entries),
        0 <= i < entries.len(),
    ensures
        names_unique(entries.update(i, (entries[i].0, term))),
        env_of(entries.update(i, (entries[i].0, term))) == env_of(entries).insert(
            entries[i].0,
            term,
        ),
    decreases entries.len(),
{
    let changed = entries.update(i, (entries[i].0, term));
    if i < entries.len() - 1 {
        lemma_env_update(entries.drop_last(), i, term);
        assert(changed.drop_last() =~= entries.drop_last().update(i, (entries[i].0, term)));
        assert(env_of(changed) =~= env_of(entries).insert(entries[i].0, term));
    } else {
        assert(changed.drop_last() =~= entries.drop_last());
        assert(env_of(changed) =~= env_of(entries).insert(entries[i].0, term));
    }
}

/// Why a term could not be expanded.
#[derive(Debug, PartialEq, Eq)]
pub enum ExpandError {
    /// The term refers to a name that is not bound.
    UnknownName(String),
    /// The definition of the name refers to the name itself, directly or
    /// through other definitions.
    CyclicDefinition(String),
}

/// The model of `ExpandError`.
pub ghost enum ExpandFailure {
    UnknownName(Seq<char>),
    CyclicDefinition(Seq<char>),
}

impl View for ExpandError {
    type V = ExpandFailure;

    open spec fn view(&self) -> ExpandFailure {
        match self {
            ExpandError::UnknownName(name) => ExpandFailure::UnknownName(name@),
            ExpandError::CyclicDefinition(name) => ExpandFailure::CyclicDefinition(name@),
        }
    }
}

/// Taking up a bound name that is not yet being expanded leaves fewer such
/// names.
pub proof fn lemma_visit_shrinks(names: Set<Seq<char>>, visiting: Set<Seq<char>>, name: Seq<char>)
    requires
        names.finite(),
        names.contains(name),
        !visiting.contains(name),
    ensures
        names.difference(visiting.insert(name)).len() < names.difference(visiting).len(),
{
    assert(names.difference(visiting.insert(name)) =~= names.difference(visiting).remove(name));
    assert(names.difference(visiting).contains(name));
}

/// The expansion of `t` under the definitions `env`, while the names in
/// `visiting` are being expanded: every name in `t` is replaced by the
/// expansion of its definition. The first name from the left that is not
/// bound, or that is already being expanded on the way to it, fails the
/// expansion.
pub open spec fn expand_from(
    env: Map<Seq<char>, Term>,
    t: Term,
    visiting: Set<Seq<char>>,
) -> Result<Term, ExpandFailure>
    decreases env.dom().difference(visiting).len(), t,
    when env.dom().finite()
{
    match t {
        Term::Name(name) => if !env.dom().contains(name) {
            Err(ExpandFailure::UnknownName(name))
        } else if visiting.contains(name) {
            Err(ExpandFailure::CyclicDefinition(name))
        } else {
            proof {
                lemma_visit_shrinks(env.dom(), visiting, name);
            }
            expand_from(env, env[name], visiting.insert(name))
        },
        Term::App(a, b) => match expand_from(env, *a, visiting) {
            Err(failure) => Err(failure),
            Ok(left) => match expand_from(env, *b, visiting) {
                Err(failure) => Err(failure),
                Ok(right) => Ok(Term::App(Box::new(left), Box::new(right))),
            },
        },
        Term::Lam(body) => match expand_from(env, *body, visiting) {
            Err(failure) => Err(failure),
            Ok(inner) => Ok(Term::Lam(Box::new(inner))),
        },
        _ => Ok(t),
    }
}

/// The expansion of `t` under the definitions `env`.
pub open spec fn expand(env: Map<Seq<char>, Term>, t: Term) -> Result<Term, ExpandFailure> {
    expand_from(env, t, Set::empty())
}

/// An expansion holds no name.
pub proof fn lemma_expansion_is_expanded(
    env: Map<Seq<char>, Term>,
    t: Term,
    visiting: Set<Seq<char>>,
)
    requires
        env.dom().finite(),
    ensures
        expand_from(env, t, visiting) matches Ok(expanded) ==> expanded.is_expanded(),
    decreases env.dom().difference(visiting).len(), t,
{
    match t {
        Term::Name(name) => {
            if env.dom().contains(name) && !visiting.contains(name) {
                lemma_visit_shrinks(env.dom(), visiting, name);
                lemma_expansion_is_expanded(env, env[name], visiting.insert(name));
            }
        },
        Term::App(a, b) => {
            lemma_expansion_is_expanded(env, *a, visiting);
            lemma_expansion_is_expanded(env, *b, visiting);
        },
        Term::Lam(body) => {
            lemma_expansion_is_expanded(env, *body, visiting);
        },
        _ => {},
    }
}

/// The outcome `r` of an expansion is the specified one.
pub open spec fn expanded_as(
    r: Result<AstNode, ExpandError>,
    expected: Result<Term, ExpandFailure>,
) -> bool {
    match (r, expected) {
        (Ok(node), Ok(term)) => node@ == term,
        (Err(error), Err(failure)) => error@ == failure,
        _ => false,
    }
}

/// What the evaluation of a line gave.
#[derive(Debug, PartialEq, Eq)]
pub enum Evaluation {
    /// A binding line: `name` now stands for the term that `definition` is
    /// the text of.
    Bound { name: String, definition: String },
    /// An expression line: the text of the normal form, and its value as a
    /// Church numeral if it is one.
    Reduced { normal_form: String, numeral: Option<u32> },
}

/// The model of `Evaluation`.
pub ghost enum EvaluationView {
    Bound { name: Seq<char>, definition: Seq<char> },
    Reduced { normal_form: Seq<char>, numeral: Option<u32> },
}

impl View for Evaluation {
    type V = EvaluationView;

    open spec fn view(&self) -> EvaluationView {
        match self {
            Evaluation::Bound { name, definition } => EvaluationView::Bound {
                name: name@,
                definition: definition@,
            },
            Evaluation::Reduced { normal_form, numeral } => EvaluationView::Reduced {
                normal_form: normal_form@,
                numeral: *numeral,
            },
        }
    }
}

/// Why the evaluation of a line failed.
#[derive(Debug, PartialEq, Eq)]
pub enum EvalError {
    /// The text is no term.
    Syntax(ParseError),
    /// The name of a binding line cannot be bound.
    Name(ValidationError),
    /// A name in the term could not be expanded.
    Expansion(ExpandError),
    /// The term was not reduced to a normal form.
    Reduction(ReduceError),
}

/// The model of `EvalError`.
pub ghost enum EvalFailure {
    Syntax(Failure),
    Name(ValidationError),
    Expansion(ExpandFailure),
    Reduction(ReduceError),
}

impl View for EvalError {
    type V = EvalFailure;

    open spec fn view(&self) -> EvalFailure {
        match self {
            EvalError::Syntax(error) => EvalFailure::Syntax(error@),
            EvalError::Name(error) => EvalFailure::Name(*error),
            EvalError::Expansion(error) => EvalFailure::Expansion(error@),
            EvalError::Reduction(error) => EvalFailure::Reduction(*error),
        }
    }
}

/// The evaluation of the term `t` under the definitions `env`: `t` is
/// expanded and reduced to normal form within `fuel` steps; the outcome
/// holds the text of the normal form and its value as a Church numeral.
pub open spec fn process_spec(env: Map<Seq<char>, Term>, t: Term, fuel: nat) -> Result<
    EvaluationView,
    EvalFailure,
> {
    match expand(env, t) {
        Err(failure) => Err(EvalFailure::Expansion(failure)),
        Ok(expanded) => match normalize(expanded, fuel) {
            Err(error) => Err(EvalFailure::Reduction(error)),
            Ok(normal) => Ok(
                EvaluationView::Reduced {
                    normal_form: render(normal, 0, false),
                    numeral: numeral_of(church_value(normal)),
                },
            ),
        },
    }
}

/// The evaluation of an expression line.
pub open spec fn evaluate_spec(env: Map<Seq<char>, Term>, line: Seq<char>, fuel: nat) -> Result<
    EvaluationView,
    EvalFailure,
> {
    match parse_object_spec(line) {
        Err(failure) => Err(EvalFailure::Syntax(failure)),
        Ok(term) => process_spec(env, term, fuel),
    }
}

/// The evaluation of a binding of `name` to the term that `expression` is
/// the text of, and the definitions after it: the name is checked first,
/// then the text is read, and the term is stored as it was read.
pub open spec fn bind_spec(env: Map<Seq<char>, Term>, name: Seq<char>, expression: Seq<char>) -> (
    Result<EvaluationView, EvalFailure>,
    Map<Seq<char>, Term>,
) {
    match name_validity(name) {
        Err(error) => (Err(EvalFailure::Name(error)), env),
        Ok(()) => match parse_object_spec(expression) {
            Err(failure) => (Err(EvalFailure::Syntax(failure)), env),
            Ok(term) => (
                Ok(EvaluationView::Bound { name, definition: render(term, 0, false) }),
                env.insert(name, term),
            ),
        },
    }
}

/// The evaluation of a line and the definitions after it. A line with a
/// binding sign binds the name before the sign, with the whitespace around
/// it removed, to the term behind the sign; any other line is an expression.
pub open spec fn eval_line_spec(env: Map<Seq<char>, Term>, line: Seq<char>, fuel: nat) -> (
    Result<EvaluationView, EvalFailure>,
    Map<Seq<char>, Term>,
) {
    match split_spec(line) {
        Some((name, expression)) => bind_spec(env, trimmed(name), expression),
        None => (evaluate_spec(env, line, fuel), env),
    }
}

/// The outcome `r` of an evaluation is the specified one.
pub open spec fn evaluated_as(
    r: Result<Evaluation, EvalError>,
    expected: Result<EvaluationView, EvalFailure>,
) -> bool {
    match (r, expected) {
        (Ok(evaluation), Ok(view)) => evaluation@ == view,
        (Err(error), Err(failure)) => error@ == failure,
        _ => false,
    }
}

/// The report of a failure at an offset of `input`: the input, a caret under
/// the offending character, and the message with the column, which counts
/// from one.
pub open spec fn error_report(input: Seq<char>, failure: Failure) -> Seq<char> {
    input + seq!['\n'] + blanks(failure.position) + seq!['^', '\n'] + "Error (column "@
        + decimal_text(failure.position + 1) + "): "@ + failure.message + seq!['\n']
}

/// The three lines in which a failure to read `input` is reported.
pub fn format_parse_error(input: &str, error: &ParseError) -> (report: String)
    ensures
        report@ == error_report(input@, error@),
{
    let mut report = String::new();
    report.append(input);
    report.push('\n');
    push_blanks(&mut report, error.position);
    report.push('^');
    report.push('\n');
    report.append("Error (column ");
    push_decimal(&mut report, error.position as u128 + 1);
    report.append("): ");
    report.append(error.message.as_str());
    report.push('\n');
    assert(report@ =~= error_report(input@, error@));
    report
}

/// A session: the definitions that were bound so far.
pub struct Interpreter {
    named_fns: Vec<(String, AstNode)>,
}

impl View for Interpreter {
    type V = Map<Seq<char>, Term>;

    /// The term that each bound name stands for.
    closed spec fn view(&self) -> Map<Seq<char>, Term> {
        env_of(self.entries())
    }
}

impl Interpreter {
    /// The bindings in the order in which their names were first bound.
    pub closed spec fn entries(&self) -> Seq<(Seq<char>, Term)> {
        Seq::new(self.named_fns.len() as nat, |i: int| (self.named_fns[i].0@, self.named_fns[i].1@))
    }

    /// No name is stored twice.
    pub closed spec fn wf(&self) -> bool {
        names_unique(self.entries())
    }

    /// Only finitely many names are bound.
    pub proof fn lemma_finite(&self)
        ensures
            self@.dom().finite(),
    {
        lemma_env_finite(self.entries());
    }

    /// A session without definitions.
    pub fn new() -> (session: Interpreter)
        ensures
            session.wf(),
            session@ == Map::<Seq<char>, Term>::empty(),
    {
        Interpreter { named_fns: Vec::new() }
    }

    /// The place at which `name` is stored, if it is bound.
    fn find(&self, name: &String) -> (place: Option<usize>)
        ensures
            match place {
                Some(i) => i < self.entries().len() && self.entries()[i as int].0 == name@,
                None => forall|i: int| 0 <= i < self.entries().len() ==> self.entries()[i].0 != name@,
            },
    {
        let mut index: usize = 0;
        while index < self.named_fns.len()
            invariant
                index <= self.named_fns.len(),
                forall|i: int| 0 <= i < index ==> self.entries()[i].0 != name@,
            decreases self.named_fns.len() - index,
        {
            if self.named_fns[index].0 == *name {
                return Some(index);
            }
            index += 1;
        }
        None
    }

    /// Tells whether `name` is bound.
    pub fn is_defined(&self, name: &String) -> (defined: bool)
        requires
            self.wf(),
        ensures
            defined == self@.dom().contains(name@),
    {
        match self.find(name) {
            Some(i) => {
                proof {
                    lemma_env_lookup(self.entries(), i as int);
                }
                true
            },
            None => {
                proof {
                    lemma_env_absent(self.entries(), name@);
                }
                false
            },
        }
    }

    /// The names whose definitions are marked in `flags`, place by place.
    pub closed spec fn marked(&self, flags: Seq<bool>) -> Set<Seq<char>> {
        Set::new(
            |name: Seq<char>|
                exists|i: int|
                    0 <= i < self.entries().len() && i < flags.len() && flags[i]
                        && #[trigger] self.entries()[i].0 == name,
        )
    }

    /// Expands `obj` while the definitions marked in `visiting` are being
    /// expanded.
    fn expand_walk(&self, obj: &AstNode, visiting: &mut Vec<bool>) -> (r: Result<
        AstNode,
        ExpandError,
    >)
        requires
            self.wf(),
            old(visiting).len() == self.entries().len(),
        ensures
            expanded_as(r, expand_from(self@, obj@, self.marked(old(visiting)@))),
            r is Ok ==> final(visiting)@ == old(visiting)@,
        decreases self@.dom().difference(self.marked(old(visiting)@)).len(), obj,
    {
        proof {
            self.lemma_finite();
        }
        match obj {
            AstNode::Application(a, b) => {
                let left = match self.expand_walk(a, visiting) {
                    Ok(left) => left,
                    Err(error) => {
                        return Err(error);
                    },
                };
                let right = match self.expand_walk(b, visiting) {
                    Ok(right) => right,
                    Err(error) => {
                        return Err(error);
                    },
                };
                Ok(AstNode::Application(Box::new(left), Box::new(right)))
            },
            AstNode::BoundVariable(v) => Ok(AstNode::BoundVariable(*v)),
            AstNode::FreeVariable(v) => Ok(AstNode::FreeVariable(*v)),
            AstNode::Function(body) => {
                match self.expand_walk(body, visiting) {
                    Ok(inner) => Ok(AstNode::Function(Box::new(inner))),
                    Err(error) => Err(error),
                }
            },
            AstNode::Name(name) => {
                match self.find(name) {
                    None => {
                        proof {
                            lemma_env_absent(self.entries(), name@);
                        }
                        Err(ExpandError::UnknownName(name.clone()))
                    },
                    Some(place) => {
                        proof {
                            lemma_env_lookup(self.entries(), place as int);
                        }
                        let ghost before = visiting@;
                        if visiting[place] {
                            assert(self.marked(before).contains(name@));
                            Err(ExpandError::CyclicDefinition(name.clone()))
                        } else {
                            assert(!self.marked(before).contains(name@));
                            visiting.set(place, true);
                            proof {
                                assert(self.marked(visiting@) =~= self.marked(before).insert(
                                    name@,
                                )) by {
                                    assert(visiting@[place as int]);
                                    assert(self.entries()[place as int].0 == name@);
                                }
                                lemma_visit_shrinks(self@.dom(), self.marked(before), name@);
                            }
                            let expanded = match self.expand_walk(
                                &self.named_fns[place].1,
                                visiting,
                            ) {
                                Ok(expanded) => expanded,
                                Err(error) => {
                                    return Err(error);
                                },
                            };
                            visiting.set(place, false);
                            assert(visiting@ =~= before);
                            Ok(expanded)
                        }
                    },
                }
            },
        }
    }

    /// Replaces every name in `obj` by the expansion of its definition.
    pub fn replace_named_functions(&self, obj: &AstNode) -> (r: Result<AstNode, ExpandError>)
        requires
            self.wf(),
        ensures
            expanded_as(r, expand(self@, obj@)),
            r matches Ok(node) ==> node@.is_expanded(),
    {
        let mut visiting: Vec<bool> = Vec::new();
        while visiting.len() < self.named_fns.len()
            invariant
                visiting.len() <= self.named_fns.len(),
                forall|i: int| 0 <= i < visiting.len() ==> !visiting[i],
            decreases self.named_fns.len() - visiting.len(),
        {
            visiting.push(false);
        }
        proof {
            assert(self.marked(visiting@) =~= Set::<Seq<char>>::empty());
            self.lemma_finite();
            lemma_expansion_is_expanded(self@, obj@, Set::empty());
        }
        self.expand_walk(obj, &mut visiting)
    }

    /// Binds `name` to `term` as it is, whatever `name` was bound to before.
    fn store(&mut self, name: String, term: AstNode)
        requires
            old(self).wf(),
        ensures
            final(self).wf(),
            final(self)@ == old(self)@.insert(name@, term@),
    {
        match self.find(&name) {
            Some(i) => {
                proof {
                    lemma_env_update(self.entries(), i as int, term@);
                }
                let ghost before = self.entries();
                self.named_fns.set(i, (name, term));
                assert(self.entries() =~= before.update(i as int, (before[i as int].0, term@)));
            },
            None => {
                let ghost before = self.entries();
                self.named_fns.push((name, term));
                assert(self.entries() =~= before.push((name@, term@)));
                assert(self.entries().drop_last() =~= before);
            },
        }
    }

    /// Evaluates a term that was read: it is expanded under the definitions
    /// of the session and reduced to normal form within `fuel` steps.
    pub fn process_object(&self, obj: AstNode, fuel: u64) -> (r: Result<Evaluation, EvalError>)
        requires
            self.wf(),
        ensures
            evaluated_as(r, process_spec(self@, obj@, fuel as nat)),
    {
        let expanded = match self.replace_named_functions(&obj) {
            Ok(expanded) => expanded,
            Err(error) => {
                return Err(EvalError::Expansion(error));
            },
        };
        let reduced = match beta_reduce(&expanded, fuel) {
            Ok(reduced) => reduced,
            Err(error) => {
                return Err(EvalError::Reduction(error));
            },
        };
        Ok(
            Evaluation::Reduced {
                normal_form: pretty_print(&reduced),
                numeral: numeric_value(&reduced),
            },
        )
    }

    /// Evaluates an expression line.
    pub fn evaluate(&self, line: &str, fuel: u64) -> (r: Result<Evaluation, EvalError>)
        requires
            self.wf(),
            line@.len() <= u32::MAX,
        ensures
            evaluated_as(r, evaluate_spec(self@, line@, fuel as nat)),
    {
        match parse_object(line) {
            Ok(obj) => self.process_object(obj, fuel),
            Err(error) => Err(EvalError::Syntax(error)),
        }
    }

    /// Binds `name` to the term that `expression` is the text of. When the
    /// name cannot be bound or the text is no term, nothing changes.
    pub fn bind(&mut self, name: String, expression: &str) -> (r: Result<Evaluation, EvalError>)
        requires
            old(self).wf(),
            expression@.len() <= u32::MAX,
        ensures
            final(self).wf(),
            evaluated_as(r, bind_spec(old(self)@, name@, expression@).0),
            final(self)@ == bind_spec(old(self)@, name@, expression@).1,
    {
        match validate_name(name.as_str()) {
            Ok(()) => {},
            Err(error) => {
                return Err(EvalError::Name(error));
            },
        }
        match parse_object(expression) {
            Ok(obj) => {
                let definition = pretty_print(&obj);
                self.store(name.clone(), obj);
                Ok(Evaluation::Bound { name, definition })
            },
            Err(error) => Err(EvalError::Syntax(error)),
        }
    }

    /// Evaluates one line of input: a binding `NAME := expression`, or an
    /// expression.
    pub fn eval_line(&mut self, line: &str, fuel: u64) -> (r: Result<Evaluation, EvalError>)
        requires
            old(self).wf(),
            line@.len() <= u32::MAX,
        ensures
            final(self).wf(),
            evaluated_as(r, eval_line_spec(old(self)@, line@, fuel as nat).0),
            final(self)@ == eval_line_spec(old(self)@, line@, fuel as nat).1,
    {
        match split_by_binding(line) {
            Some((name, expression)) => {
                proof {
                    lemma_find_binding(line@, 0);
                }
                let name = String::from_str(name.as_str().trim());
                self.bind(name, expression.as_str())
            },
            None => self.evaluate(line, fuel),
        }
    }

    /// Binds `name` to `term`, which is stored as it is. A name that is
    /// empty, holds anything but upper-case letters and digits, or starts
    /// with a digit is rejected, and nothing changes.
    pub fn define(&mut self, name: String, term: AstNode) -> (r: Result<(), ValidationError>)
        requires
            old(self).wf(),
        ensures
            final(self).wf(),
            r == name_validity(name@),
            final(self)@ == (if r is Ok {
                old(self)@.insert(name@, term@)
            } else {
                old(self)@
            }),
    {
        match validate_name(name.as_str()) {
            Err(error) => Err(error),
            Ok(()) => {
                self.store(name, term);
                Ok(())
            },
        }
    }
}

} // verus!
