use lambda_calc::numeral::numeric_value;
use lambda_calc::parser::{create_church_numeral, parse_object};
use lambda_calc::printer::pretty_print;
use lambda_calc::reduction::{
    beta_reduce, copy_node, increment_free, reduce_application, reduce_node, substitute,
    substitute_walk, ReduceError,
};
use lambda_calc::term::AstNode;

fn free(ch: char) -> AstNode {
    AstNode::FreeVariable(ch)
}

fn bound(index: u32) -> AstNode {
    AstNode::BoundVariable(index)
}

fn app(left: AstNode, right: AstNode) -> AstNode {
    AstNode::Application(Box::new(left), Box::new(right))
}

fn lam(body: AstNode) -> AstNode {
    AstNode::Function(Box::new(body))
}

fn parse(text: &str) -> AstNode {
    parse_object(text).unwrap()
}

fn normal(text: &str) -> AstNode {
    beta_reduce(&parse(text), 100_000).unwrap()
}

fn constant_function() -> AstNode {
    lam(lam(bound(1)))
}

#[test]
fn copy_equals_the_term_copied() {
    let term = lam(app(app(bound(0), free('q')), lam(bound(1))));
    assert_eq!(copy_node(&term), term);
}

#[test]
fn increment_lifts_only_free_indices() {
    let term = lam(app(app(bound(0), bound(1)), lam(app(bound(1), bound(2)))));
    assert_eq!(
        increment_free(&term, 5, 0),
        Some(lam(app(app(bound(0), bound(6)), lam(app(bound(1), bound(7))))))
    );
    assert_eq!(increment_free(&bound(3), 2, 3), Some(bound(5)));
    assert_eq!(increment_free(&bound(2), 2, 3), Some(bound(2)));
    assert_eq!(increment_free(&free('a'), 9, 0), Some(free('a')));
}

#[test]
fn increment_by_zero_changes_nothing() {
    let term = lam(app(bound(4), lam(bound(0))));
    assert_eq!(increment_free(&term, 0, 0), Some(term));
}

#[test]
fn increment_reports_an_index_beyond_u32() {
    assert_eq!(increment_free(&bound(u32::MAX), 1, 0), None);
    assert_eq!(increment_free(&bound(u32::MAX - 1), 1, 0), Some(bound(u32::MAX)));
    assert_eq!(increment_free(&lam(bound(u32::MAX)), 1, 0), None);
    assert_eq!(increment_free(&app(free('a'), bound(7)), u32::MAX, 0), None);
}

#[test]
fn increment_past_the_last_threshold() {
    assert_eq!(
        increment_free(&lam(bound(u32::MAX)), 1, u32::MAX),
        Some(lam(bound(u32::MAX)))
    );
    assert_eq!(increment_free(&bound(u32::MAX), 0, u32::MAX), Some(bound(u32::MAX)));
}

#[test]
fn substitute_replaces_decrements_and_keeps() {
    let arg = free('a');
    assert_eq!(substitute(&bound(0), &arg), Some(free('a')));
    assert_eq!(substitute(&bound(1), &arg), Some(bound(0)));
    assert_eq!(substitute(&bound(7), &arg), Some(bound(6)));
    assert_eq!(substitute(&free('z'), &arg), Some(free('z')));
    assert_eq!(substitute_walk(&bound(1), 2, &arg), Some(bound(1)));
    assert_eq!(substitute_walk(&bound(2), 2, &arg), Some(free('a')));
    assert_eq!(substitute_walk(&bound(3), 2, &arg), Some(bound(2)));
}

#[test]
fn substitute_lifts_the_argument_under_binders() {
    let body = lam(lam(app(bound(2), bound(3))));
    let arg = app(bound(0), lam(app(bound(0), bound(1))));
    assert_eq!(
        substitute(&body, &arg),
        Some(lam(lam(app(
            app(bound(2), lam(app(bound(0), bound(3)))),
            bound(2)
        ))))
    );
}

#[test]
fn substitute_reports_an_index_beyond_u32() {
    assert_eq!(substitute(&lam(bound(1)), &bound(u32::MAX)), None);
    assert_eq!(substitute(&lam(bound(0)), &bound(u32::MAX)), Some(lam(bound(0))));
    assert_eq!(substitute(&bound(0), &bound(u32::MAX)), Some(bound(u32::MAX)));
}

#[test]
fn substitute_past_the_last_depth() {
    assert_eq!(
        substitute_walk(&lam(bound(u32::MAX)), u32::MAX, &free('a')),
        Some(lam(bound(u32::MAX)))
    );
}

#[test]
fn identity_applied_to_free_variable() {
    assert_eq!(normal("(\\x.x)a"), free('a'));
    assert_eq!(pretty_print(&normal("(\\x.x)a")), "a");
}

#[test]
fn two_fold_application_is_the_numeral_two() {
    let reduced = normal("\\f.\\x.f(f x)");
    assert_eq!(reduced, create_church_numeral(2));
    assert_eq!(numeric_value(&reduced), Some(2));
}

#[test]
fn constant_function_returns_first_argument() {
    assert_eq!(normal("(\\x.\\y.x) a b"), free('a'));
    assert_eq!(normal("(\\x.\\y.y) a b"), free('b'));
}

#[test]
fn constant_function_keeps_free_indices_of_its_argument() {
    for index in [0u32, 1, 2, 7, 1000, u32::MAX - 1] {
        let term = app(app(constant_function(), bound(index)), bound(3));
        assert_eq!(beta_reduce(&term, 10), Ok(bound(index)));
    }
}

#[test]
fn constant_function_under_binders_keeps_indices() {
    let first = lam(app(bound(0), app(bound(1), bound(5))));
    let term = lam(lam(app(app(constant_function(), copy_node(&first)), bound(1))));
    assert_eq!(beta_reduce(&term, 10), Ok(lam(lam(first))));
}

#[test]
fn constant_function_argument_is_normalised() {
    let first = app(lam(app(bound(0), bound(2))), bound(4));
    let term = app(app(constant_function(), first), free('b'));
    assert_eq!(beta_reduce(&term, 10), Ok(app(bound(4), bound(1))));
}

#[test]
fn constant_function_takes_two_steps() {
    let term = app(app(constant_function(), free('a')), free('b'));
    assert_eq!(reduce_node(&term, false, 2), Ok((free('a'), 0)));
    assert_eq!(reduce_node(&term, false, 5), Ok((free('a'), 3)));
    assert_eq!(reduce_node(&term, false, 1), Err(ReduceError::DidNotConverge));
    assert_eq!(beta_reduce(&term, 0), Err(ReduceError::DidNotConverge));
}

#[test]
fn lift_of_largest_index_overflows() {
    let term = app(app(constant_function(), bound(u32::MAX)), free('b'));
    assert_eq!(beta_reduce(&term, 10), Err(ReduceError::IndexOverflow));
}

#[test]
fn capture_is_avoided() {
    assert_eq!(normal("\\y.(\\x.\\y.x) y"), lam(lam(bound(1))));
    assert_eq!(normal("\\z.(\\x.\\y.x y) (z z)"), lam(lam(app(app(bound(1), bound(1)), bound(0)))));
}

#[test]
fn reduction_goes_under_binders() {
    assert_eq!(normal("\\x.(\\y.y) x"), lam(bound(0)));
    assert_eq!(normal("a ((\\x.x) b)"), app(free('a'), free('b')));
}

#[test]
fn normal_order_discards_a_diverging_argument() {
    assert_eq!(normal("(\\x.a) ((\\x.x x)(\\x.x x))"), free('a'));
}

#[test]
fn diverging_term_runs_out_of_budget() {
    let omega = parse("(\\x.x x)(\\x.x x)");
    assert_eq!(beta_reduce(&omega, 0), Err(ReduceError::DidNotConverge));
    assert_eq!(beta_reduce(&omega, 1000), Err(ReduceError::DidNotConverge));
}

#[test]
fn normal_term_needs_no_budget() {
    let term = parse("\\f.\\x.f (f x) a");
    assert_eq!(beta_reduce(&term, 0), Ok(copy_node(&term)));
}

#[test]
fn head_reduction_stops_at_a_function() {
    let term = parse("(\\x.x) (\\y.(\\z.z) y)");
    assert_eq!(reduce_node(&term, true, 10), Ok((lam(app(lam(bound(0)), bound(0))), 9)));
    assert_eq!(reduce_node(&term, false, 10), Ok((lam(bound(0)), 8)));
}

#[test]
fn head_reduction_leaves_arguments_of_a_variable() {
    let term = parse("a ((\\x.x) b)");
    assert_eq!(reduce_node(&term, true, 10), Ok((copy_node(&term), 10)));
    assert_eq!(reduce_node(&term, false, 10), Ok((app(free('a'), free('b')), 9)));
}

#[test]
fn application_is_reduced_from_its_sides() {
    let left = parse("\\x.x x");
    let right = free('a');
    assert_eq!(reduce_application(&left, &right, false, 3), Ok((app(free('a'), free('a')), 2)));
    assert_eq!(reduce_application(&left, &right, true, 0), Err(ReduceError::DidNotConverge));
}

#[test]
fn normalisation_is_idempotent() {
    for text in [
        "(\\x.x)a",
        "\\f.\\x.f(f x)",
        "(\\mnfx.mf(nfx)) 2 3",
        "(\\mnf.m(nf)) 3 4",
        "(\\be.eb) 2 3",
        "\\x.x ((\\y.y y) x)",
        "(\\x.\\y.x) (\\z.z z) b",
    ] {
        let once = normal(text);
        let twice = beta_reduce(&once, 0).unwrap();
        assert_eq!(once, twice);
    }
}

#[test]
fn larger_budget_gives_the_same_normal_form() {
    let term = parse("(\\mnfx.mf(nfx)) 2 3");
    let mut needed = 0;
    while beta_reduce(&term, needed).is_err() {
        needed += 1;
    }
    let reached = beta_reduce(&term, needed).unwrap();
    assert_eq!(reached, create_church_numeral(5));
    assert_eq!(beta_reduce(&term, needed + 1), Ok(copy_node(&reached)));
    assert_eq!(beta_reduce(&term, u64::MAX), Ok(reached));
}

#[test]
fn arithmetic_on_numerals() {
    assert_eq!(numeric_value(&normal("(\\nfx.f(nfx)) 4")), Some(5));
    assert_eq!(numeric_value(&normal("(\\mnfx.mf(nfx)) 2 3")), Some(5));
    assert_eq!(numeric_value(&normal("(\\mnf.m(nf)) 3 4")), Some(12));
    assert_eq!(numeric_value(&normal("(\\be.eb) 2 3")), Some(8));
    assert_eq!(
        numeric_value(&normal("(\\nfx.n(\\gh.h(gf))(\\u.x)(\\u.u)) 7")),
        Some(6)
    );
}

#[test]
fn numeral_literals_survive_normalisation() {
    for n in [0u32, 1, 2, 25, 1000] {
        let term = parse(&n.to_string());
        let reduced = beta_reduce(&term, 0).unwrap();
        assert_eq!(numeric_value(&reduced), Some(n));
    }
}
