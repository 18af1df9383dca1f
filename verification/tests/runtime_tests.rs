use lambda_calc::parser::{parse_object, ParseError};
use lambda_calc::reduction::ReduceError;
use lambda_calc::runtime::{
    format_parse_error, split_by_binding, validate_name, EvalError, Evaluation, ExpandError,
    Interpreter, ValidationError,
};
use lambda_calc::term::AstNode;

const BUDGET: u64 = 1_000_000;

fn free(ch: char) -> AstNode {
    AstNode::FreeVariable(ch)
}

fn bound(index: u32) -> AstNode {
    AstNode::BoundVariable(index)
}

fn app(left: AstNode, right: AstNode) -> AstNode {
    AstNode::Application(Box::new(left), Box::new(right))
}

fn lam(body: AstNode) -> AstNode {
    AstNode::Function(Box::new(body))
}

fn name(text: &str) -> AstNode {
    AstNode::Name(text.to_string())
}

fn reduced(normal_form: &str, numeral: Option<u32>) -> Result<Evaluation, EvalError> {
    Ok(Evaluation::Reduced { normal_form: normal_form.to_string(), numeral })
}

fn bound_to(name: &str, definition: &str) -> Result<Evaluation, EvalError> {
    Ok(Evaluation::Bound { name: name.to_string(), definition: definition.to_string() })
}

fn syntax(position: usize, message: &str) -> Result<Evaluation, EvalError> {
    Err(EvalError::Syntax(ParseError { position, message: message.to_string() }))
}

fn session_with(lines: &[&str]) -> Interpreter {
    let mut session = Interpreter::new();
    for line in lines {
        assert!(session.eval_line(line, BUDGET).is_ok(), "line failed: {}", line);
    }
    session
}

#[test]
fn split_at_the_first_binding_sign() {
    assert_eq!(
        split_by_binding("I := \\x.x"),
        Some(("I ".to_string(), " \\x.x".to_string()))
    );
    assert_eq!(split_by_binding("A:=B:=C"), Some(("A".to_string(), "B:=C".to_string())));
    assert_eq!(split_by_binding(":="), Some(("".to_string(), "".to_string())));
    assert_eq!(split_by_binding("x:="), Some(("x".to_string(), "".to_string())));
    assert_eq!(split_by_binding("::=="), Some((":".to_string(), "=".to_string())));
}

#[test]
fn no_binding_sign_no_split() {
    assert_eq!(split_by_binding(""), None);
    assert_eq!(split_by_binding("="), None);
    assert_eq!(split_by_binding(":"), None);
    assert_eq!(split_by_binding("a : = b"), None);
    assert_eq!(split_by_binding("=:"), None);
    assert_eq!(split_by_binding("\\x.x"), None);
}

#[test]
fn split_counts_characters() {
    assert_eq!(
        split_by_binding("\u{e9}\u{e9}:=\u{3bb}"),
        Some(("\u{e9}\u{e9}".to_string(), "\u{3bb}".to_string()))
    );
}

#[test]
fn valid_names() {
    assert_eq!(validate_name("I"), Ok(()));
    assert_eq!(validate_name("SUCC"), Ok(()));
    assert_eq!(validate_name("K9"), Ok(()));
    assert_eq!(validate_name("A0B1"), Ok(()));
}

#[test]
fn empty_name_is_rejected() {
    assert_eq!(validate_name(""), Err(ValidationError::EmptyName));
}

#[test]
fn malformed_names_are_rejected() {
    assert_eq!(validate_name("9K"), Err(ValidationError::InvalidName));
    assert_eq!(validate_name("0"), Err(ValidationError::InvalidName));
    assert_eq!(validate_name("Succ"), Err(ValidationError::InvalidName));
    assert_eq!(validate_name("x"), Err(ValidationError::InvalidName));
    assert_eq!(validate_name("A B"), Err(ValidationError::InvalidName));
    assert_eq!(validate_name(" A"), Err(ValidationError::InvalidName));
    assert_eq!(validate_name("A_B"), Err(ValidationError::InvalidName));
    assert_eq!(validate_name("\u{c9}"), Err(ValidationError::InvalidName));
}

#[test]
fn validation_messages() {
    assert_eq!(ValidationError::EmptyName.message(), "name cannot be empty");
    assert_eq!(ValidationError::InvalidName.message(), "invalid name");
}

#[test]
fn define_stores_the_term_as_it_is() {
    let mut session = Interpreter::new();
    assert!(!session.is_defined(&"TWICE".to_string()));
    assert_eq!(session.define("TWICE".to_string(), lam(app(name("F"), name("F")))), Ok(()));
    assert!(session.is_defined(&"TWICE".to_string()));
    assert!(!session.is_defined(&"F".to_string()));
    assert_eq!(
        session.replace_named_functions(&name("TWICE")),
        Err(ExpandError::UnknownName("F".to_string()))
    );
    assert_eq!(session.define("F".to_string(), free('f')), Ok(()));
    assert_eq!(
        session.replace_named_functions(&name("TWICE")),
        Ok(lam(app(free('f'), free('f'))))
    );
}

#[test]
fn define_rejects_bad_names_and_changes_nothing() {
    let mut session = Interpreter::new();
    assert_eq!(session.define("".to_string(), free('a')), Err(ValidationError::EmptyName));
    assert_eq!(session.define("lower".to_string(), free('a')), Err(ValidationError::InvalidName));
    assert_eq!(session.define("1A".to_string(), free('a')), Err(ValidationError::InvalidName));
    assert!(!session.is_defined(&"".to_string()));
    assert!(!session.is_defined(&"lower".to_string()));
    assert!(!session.is_defined(&"1A".to_string()));
}

#[test]
fn rebinding_overwrites() {
    let mut session = Interpreter::new();
    assert_eq!(session.define("A".to_string(), free('a')), Ok(()));
    assert_eq!(session.define("B".to_string(), free('b')), Ok(()));
    assert_eq!(session.define("A".to_string(), free('c')), Ok(()));
    assert_eq!(session.replace_named_functions(&name("A")), Ok(free('c')));
    assert_eq!(session.replace_named_functions(&name("B")), Ok(free('b')));
}

#[test]
fn expansion_is_recursive_and_late() {
    let mut session = Interpreter::new();
    assert_eq!(session.define("A".to_string(), app(name("B"), name("B"))), Ok(()));
    assert_eq!(session.define("B".to_string(), lam(name("C"))), Ok(()));
    assert_eq!(session.define("C".to_string(), bound(0)), Ok(()));
    assert_eq!(
        session.replace_named_functions(&lam(app(name("A"), free('x')))),
        Ok(lam(app(app(lam(bound(0)), lam(bound(0))), free('x'))))
    );
    assert_eq!(session.define("C".to_string(), free('z')), Ok(()));
    assert_eq!(
        session.replace_named_functions(&name("B")),
        Ok(lam(free('z')))
    );
}

#[test]
fn expansion_leaves_terms_without_names_alone() {
    let session = Interpreter::new();
    let term = lam(app(bound(0), app(free('a'), bound(7))));
    assert_eq!(
        session.replace_named_functions(&term),
        Ok(lam(app(bound(0), app(free('a'), bound(7)))))
    );
}

#[test]
fn first_unknown_name_from_the_left_is_reported() {
    let mut session = Interpreter::new();
    assert_eq!(session.define("A".to_string(), name("MISSING")), Ok(()));
    assert_eq!(
        session.replace_named_functions(&app(name("A"), name("OTHER"))),
        Err(ExpandError::UnknownName("MISSING".to_string()))
    );
    assert_eq!(
        session.replace_named_functions(&app(name("OTHER"), name("A"))),
        Err(ExpandError::UnknownName("OTHER".to_string()))
    );
}

#[test]
fn self_reference_is_reported() {
    let mut session = Interpreter::new();
    assert_eq!(session.define("A".to_string(), lam(name("A"))), Ok(()));
    assert_eq!(
        session.replace_named_functions(&name("A")),
        Err(ExpandError::CyclicDefinition("A".to_string()))
    );
}

#[test]
fn cycle_through_other_definitions_is_reported() {
    let mut session = Interpreter::new();
    assert_eq!(session.define("A".to_string(), name("B")), Ok(()));
    assert_eq!(session.define("B".to_string(), app(free('x'), name("C"))), Ok(()));
    assert_eq!(session.define("C".to_string(), name("A")), Ok(()));
    assert_eq!(
        session.replace_named_functions(&name("A")),
        Err(ExpandError::CyclicDefinition("A".to_string()))
    );
    assert_eq!(
        session.replace_named_functions(&name("C")),
        Err(ExpandError::CyclicDefinition("C".to_string()))
    );
}

#[test]
fn repeated_use_of_a_name_is_no_cycle() {
    let mut session = Interpreter::new();
    assert_eq!(session.define("A".to_string(), free('a')), Ok(()));
    assert_eq!(session.define("B".to_string(), app(name("A"), name("A"))), Ok(()));
    assert_eq!(
        session.replace_named_functions(&app(name("B"), name("A"))),
        Ok(app(app(free('a'), free('a')), free('a')))
    );
}

#[test]
fn cycle_check_is_cleared_after_a_failure_free_branch() {
    let mut session = Interpreter::new();
    assert_eq!(session.define("A".to_string(), name("B")), Ok(()));
    assert_eq!(session.define("B".to_string(), free('b')), Ok(()));
    assert_eq!(
        session.replace_named_functions(&app(name("A"), name("B"))),
        Ok(app(free('b'), free('b')))
    );
}

#[test]
fn expression_line_is_reduced() {
    let mut session = Interpreter::new();
    assert_eq!(session.eval_line("(\\x.x)a", BUDGET), reduced("a", None));
    assert_eq!(session.eval_line("\\f.\\x.f(f x)", BUDGET), reduced("\\a.\\b.a (a b)", Some(2)));
    assert_eq!(session.eval_line("0", BUDGET), reduced("\\a.\\b.b", Some(0)));
}

#[test]
fn identity_applied_to_itself_twice() {
    let mut session = Interpreter::new();
    assert_eq!(session.eval_line("I := \\x.x", BUDGET), bound_to("I", "\\a.a"));
    assert_eq!(session.eval_line("I I I", BUDGET), reduced("\\a.a", None));
    let shown = session.evaluate("\\x.x", BUDGET);
    assert_eq!(session.eval_line("I I I", BUDGET), shown);
}

#[test]
fn undefined_name_is_reported() {
    let mut session = Interpreter::new();
    assert_eq!(
        session.eval_line("FOO x", BUDGET),
        Err(EvalError::Expansion(ExpandError::UnknownName("FOO".to_string())))
    );
}

#[test]
fn binding_line_trims_the_name() {
    let mut session = Interpreter::new();
    assert_eq!(session.eval_line("  \tID  :=\\x.x", BUDGET), bound_to("ID", "\\a.a"));
    assert!(session.is_defined(&"ID".to_string()));
    assert_eq!(session.eval_line("ID a", BUDGET), reduced("a", None));
}

#[test]
fn binding_line_stores_without_expanding_or_reducing() {
    let mut session = Interpreter::new();
    assert_eq!(
        session.eval_line("T := (\\x.x) LATER", BUDGET),
        bound_to("T", "(\\a.a) LATER")
    );
    assert_eq!(
        session.eval_line("T", BUDGET),
        Err(EvalError::Expansion(ExpandError::UnknownName("LATER".to_string())))
    );
    assert_eq!(session.eval_line("LATER := 3", BUDGET), bound_to("LATER", "\\a.\\b.a (a (a b))"));
    assert_eq!(session.eval_line("T", BUDGET), reduced("\\a.\\b.a (a (a b))", Some(3)));
}

#[test]
fn binding_line_with_bad_name() {
    let mut session = Interpreter::new();
    assert_eq!(
        session.eval_line(" := \\x.x", BUDGET),
        Err(EvalError::Name(ValidationError::EmptyName))
    );
    assert_eq!(
        session.eval_line("id := \\x.x", BUDGET),
        Err(EvalError::Name(ValidationError::InvalidName))
    );
    assert_eq!(
        session.eval_line("A B := \\x.x", BUDGET),
        Err(EvalError::Name(ValidationError::InvalidName))
    );
    assert!(!session.is_defined(&"id".to_string()));
}

#[test]
fn name_is_checked_before_the_expression() {
    let mut session = Interpreter::new();
    assert_eq!(
        session.eval_line("bad := (", BUDGET),
        Err(EvalError::Name(ValidationError::InvalidName))
    );
}

#[test]
fn binding_line_with_bad_expression_changes_nothing() {
    let mut session = session_with(&["K := \\xy.x"]);
    assert_eq!(
        session.eval_line("K := (\\x.x", BUDGET),
        syntax(6, "expected name, letter, number, (, or )")
    );
    assert_eq!(session.eval_line("K a b", BUDGET), reduced("a", None));
}

#[test]
fn bind_takes_the_name_as_given() {
    let mut session = Interpreter::new();
    assert_eq!(
        session.bind(" I".to_string(), "\\x.x"),
        Err(EvalError::Name(ValidationError::InvalidName))
    );
    assert_eq!(session.bind("I".to_string(), "\\x.x"), bound_to("I", "\\a.a"));
    assert_eq!(session.bind("J".to_string(), "\\x."), syntax(3, "expected name, letter, number, or ("));
    assert!(!session.is_defined(&"J".to_string()));
}

#[test]
fn malformed_expression_line() {
    let mut session = Interpreter::new();
    assert_eq!(
        session.eval_line("(\\x.x", BUDGET),
        syntax(5, "expected name, letter, number, (, or )")
    );
    assert_eq!(session.eval_line("a $", BUDGET), syntax(2, "invalid token"));
}

#[test]
fn failed_line_leaves_the_session_usable() {
    let mut session = session_with(&["I := \\x.x"]);
    assert!(session.eval_line("(((", BUDGET).is_err());
    assert!(session.eval_line("NOPE", BUDGET).is_err());
    assert_eq!(session.eval_line("I a", BUDGET), reduced("a", None));
}

#[test]
fn cyclic_definition_in_a_line() {
    let mut session = session_with(&["A := \\x.B x", "B := A"]);
    assert_eq!(
        session.eval_line("A", BUDGET),
        Err(EvalError::Expansion(ExpandError::CyclicDefinition("A".to_string())))
    );
}

#[test]
fn diverging_line_does_not_converge() {
    let mut session = session_with(&["W := \\x.x x"]);
    assert_eq!(
        session.eval_line("W W", 500),
        Err(EvalError::Reduction(ReduceError::DidNotConverge))
    );
}

#[test]
fn process_object_expands_then_reduces() {
    let session = session_with(&["SUCC := \\nfx.f(nfx)"]);
    let term = parse_object("SUCC (SUCC 0)").unwrap();
    assert_eq!(session.process_object(term, BUDGET), reduced("\\a.\\b.a (a b)", Some(2)));
    assert_eq!(
        session.process_object(name("PRED"), BUDGET),
        Err(EvalError::Expansion(ExpandError::UnknownName("PRED".to_string())))
    );
    assert_eq!(
        session.process_object(parse_object("SUCC 0").unwrap(), 1),
        Err(EvalError::Reduction(ReduceError::DidNotConverge))
    );
}

#[test]
fn prelude_combinators() {
    let mut session = session_with(&[
        "I := \\x.x",
        "SUCC := \\nfx.f(nfx)",
        "ADD := \\mnfx.mf(nfx)",
        "MUL := \\mnf.m(nf)",
        "POW := \\be.eb",
        "PRED := \\nfx.n(\\gh.h(gf))(\\u.x)(\\u.u)",
        "SUB := \\mn.n PRED m",
        "TRUE := \\xy.x",
        "FALSE := \\xy.y",
        "AND := \\pq.pqp",
        "OR := \\pq.ppq",
        "NOT := \\pab.pba",
        "IF := \\pab.pab",
        "ZERO := \\n.n(\\x.FALSE)TRUE",
        "LEQ := \\mn.ZERO (SUB m n)",
        "EQ := \\mn.AND (LEQ m n) (LEQ n m)",
        "PAIR := \\xyf.fxy",
        "FIRST := \\p.p TRUE",
        "SECOND := \\p.p FALSE",
    ]);
    assert_eq!(session.eval_line("ADD 2 3", BUDGET), reduced("\\a.\\b.a (a (a (a (a b))))", Some(5)));
    assert_eq!(session.eval_line("MUL 2 3", BUDGET), reduced("\\a.\\b.a (a (a (a (a (a b)))))", Some(6)));
    assert_eq!(session.eval_line("SUB 5 2", BUDGET), reduced("\\a.\\b.a (a (a b))", Some(3)));
    assert_eq!(session.eval_line("POW 2 3", BUDGET), reduced("\\a.\\b.a (a (a (a (a (a (a (a b)))))))", Some(8)));
    assert_eq!(session.eval_line("EQ 2 2", BUDGET), reduced("\\a.\\b.a", None));
    assert_eq!(session.eval_line("EQ 2 3", BUDGET), reduced("\\a.\\b.b", Some(0)));
    assert_eq!(session.eval_line("FIRST (PAIR a b)", BUDGET), reduced("a", None));
    assert_eq!(session.eval_line("SECOND (PAIR a b)", BUDGET), reduced("b", None));
    assert_eq!(session.eval_line("IF (NOT TRUE) a b", BUDGET), reduced("b", None));
}

#[test]
fn numeral_literals_round_trip_through_a_line() {
    let mut session = Interpreter::new();
    for n in [0u32, 1, 2, 25, 1000] {
        match session.eval_line(&n.to_string(), BUDGET) {
            Ok(Evaluation::Reduced { numeral, .. }) => assert_eq!(numeral, Some(n)),
            other => panic!("unexpected outcome: {:?}", other),
        }
    }
}

#[test]
fn error_report_layout() {
    let error = ParseError { position: 5, message: "expected name, letter, number, (, or )".to_string() };
    assert_eq!(
        format_parse_error("(\\x.x", &error),
        "(\\x.x\n     ^\nError (column 6): expected name, letter, number, (, or )\n"
    );
}

#[test]
fn error_report_at_the_first_column() {
    let error = ParseError { position: 0, message: "invalid token".to_string() };
    assert_eq!(format_parse_error("$", &error), "$\n^\nError (column 1): invalid token\n");
}

#[test]
fn error_report_with_a_long_column_number() {
    let error = ParseError { position: 1009, message: "m".to_string() };
    let report = format_parse_error("", &error);
    let mut expected = String::from("\n");
    expected.push_str(&" ".repeat(1009));
    expected.push_str("^\nError (column 1010): m\n");
    assert_eq!(report, expected);
}

#[test]
fn error_report_for_a_parsed_line() {
    let line = "a b )";
    let error = parse_object(line).unwrap_err();
    assert_eq!(
        format_parse_error(line, &error),
        "a b )\n    ^\nError (column 5): expected end of input\n"
    );
}
