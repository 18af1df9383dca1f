//! Capture-avoiding substitution and normal-order reduction.

use crate::term::{lemma_model_fits, AstNode, Term};
use vstd::pervasive::unreached;
use vstd::prelude::*;

verus! {

/// Adds `by` to every index of `t` that is free at nesting `threshold`.
pub open spec fn shift(t: Term, by: nat, threshold: nat) -> Term
    decreases t,
{
    match t {
        Term::Bound(k) => if k >= threshold {
            Term::Bound(k + by)
        } else {
            t
        },
        Term::App(a, b) => Term::App(
            Box::new(shift(*a, by, threshold)),
            Box::new(shift(*b, by, threshold)),
        ),
        Term::Lam(body) => Term::Lam(Box::new(shift(*body, by, threshold + 1))),
        _ => t,
    }
}

/// Replaces the variable bound `depth` functions above `t` by `arg` and
/// removes that binder: `arg` is lifted over the `depth` binders it moves
/// under, and every index that pointed past the removed binder drops by one.
pub open spec fn subst(t: Term, depth: nat, arg: Term) -> Term
    decreases t,
{
    match t {
        Term::Bound(k) => if k == depth {
            shift(arg, depth, 0)
        } else if k > depth {
            Term::Bound((k - 1) as nat)
        } else {
            t
        },
        Term::App(a, b) => Term::App(
            Box::new(subst(*a, depth, arg)),
            Box::new(subst(*b, depth, arg)),
        ),
        Term::Lam(body) => Term::Lam(Box::new(subst(*body, depth + 1, arg))),
        _ => t,
    }
}

/// Shifting from a threshold above every index changes nothing.
pub proof fn lemma_shift_beyond(t: Term, by: nat, threshold: nat)
    requires
        t.fits(),
        threshold > u32::MAX,
    ensures
        shift(t, by, threshold) == t,
    decreases t,
{
    match t {
        Term::App(a, b) => {
            lemma_shift_beyond(*a, by, threshold);
            lemma_shift_beyond(*b, by, threshold);
        },
        Term::Lam(body) => {
            lemma_shift_beyond(*body, by, threshold + 1);
        },
        _ => {},
    }
}

/// Substituting for a binder above every index changes nothing.
pub proof fn lemma_subst_beyond(t: Term, depth: nat, arg: Term)
    requires
        t.fits(),
        depth > u32::MAX,
    ensures
        subst(t, depth, arg) == t,
    decreases t,
{
    match t {
        Term::App(a, b) => {
            lemma_subst_beyond(*a, depth, arg);
            lemma_subst_beyond(*b, depth, arg);
        },
        Term::Lam(body) => {
            lemma_subst_beyond(*body, depth + 1, arg);
        },
        _ => {},
    }
}

/// A structural copy of a term without names.
pub fn copy_node(node: &AstNode) -> (r: AstNode)
    requires
        node@.is_expanded(),
    ensures
        r@ == node@,
    decreases node,
{
    match node {
        AstNode::Application(a, b) => AstNode::Application(
            Box::new(copy_node(a)),
            Box::new(copy_node(b)),
        ),
        AstNode::FreeVariable(ch) => AstNode::FreeVariable(*ch),
        AstNode::BoundVariable(num) => AstNode::BoundVariable(*num),
        AstNode::Function(body) => AstNode::Function(Box::new(copy_node(body))),
        AstNode::Name(_) => unreached(),
    }
}

/// Lifts the free indices of `node` by `by`, where an index counts as free
/// from `free_threshold` on. `None` when a lifted index leaves `u32`.
pub fn increment_free(node: &AstNode, by: u32, free_threshold: u32) -> (r: Option<AstNode>)
    requires
        node@.is_expanded(),
    ensures
        r is Some <==> shift(node@, by as nat, free_threshold as nat).fits(),
        r matches Some(t) ==> t@ == shift(node@, by as nat, free_threshold as nat),
    decreases node,
{
    match node {
        AstNode::Application(a, b) => {
            match increment_free(a, by, free_threshold) {
                None => None,
                Some(left) => match increment_free(b, by, free_threshold) {
                    None => None,
                    Some(right) => Some(AstNode::Application(Box::new(left), Box::new(right))),
                },
            }
        },
        AstNode::BoundVariable(num) => {
            if *num >= free_threshold {
                match num.checked_add(by) {
                    Some(lifted) => Some(AstNode::BoundVariable(lifted)),
                    None => None,
                }
            } else {
                Some(AstNode::BoundVariable(*num))
            }
        },
        AstNode::FreeVariable(ch) => Some(AstNode::FreeVariable(*ch)),
        AstNode::Function(body) => {
            if free_threshold == u32::MAX {
                proof {
                    lemma_model_fits(body);
                    lemma_shift_beyond(body@, by as nat, free_threshold as nat + 1);
                }
                Some(AstNode::Function(Box::new(copy_node(body))))
            } else {
                match increment_free(body, by, free_threshold + 1) {
                    None => None,
                    Some(lifted) => Some(AstNode::Function(Box::new(lifted))),
                }
            }
        },
        AstNode::Name(_) => unreached(),
    }
}

/// Substitutes `arg` for the variable bound `depth` functions above `node`.
/// `None` when an index of the result leaves `u32`.
pub fn substitute_walk(node: &AstNode, depth: u32, arg: &AstNode) -> (r: Option<AstNode>)
    requires
        node@.is_expanded(),
        arg@.is_expanded(),
    ensures
        r is Some <==> subst(node@, depth as nat, arg@).fits(),
        r matches Some(t) ==> t@ == subst(node@, depth as nat, arg@),
    decreases node,
{
    match node {
        AstNode::FreeVariable(ch) => Some(AstNode::FreeVariable(*ch)),
        AstNode::BoundVariable(num) => {
            if *num == depth {
                increment_free(arg, depth, 0)
            } else if *num > depth {
                Some(AstNode::BoundVariable(*num - 1))
            } else {
                Some(AstNode::BoundVariable(*num))
            }
        },
        AstNode::Function(body) => {
            if depth == u32::MAX {
                proof {
                    lemma_model_fits(body);
                    lemma_subst_beyond(body@, depth as nat + 1, arg@);
                }
                Some(AstNode::Function(Box::new(copy_node(body))))
            } else {
                match substitute_walk(body, depth + 1, arg) {
                    None => None,
                    Some(inner) => Some(AstNode::Function(Box::new(inner))),
                }
            }
        },
        AstNode::Application(a, b) => {
            match substitute_walk(a, depth, arg) {
                None => None,
                Some(left) => match substitute_walk(b, depth, arg) {
                    None => None,
                    Some(right) => Some(AstNode::Application(Box::new(left), Box::new(right))),
                },
            }
        },
        AstNode::Name(_) => unreached(),
    }
}

/// Substitutes `arg` for the parameter of the function whose body is `node`.
pub fn substitute(node: &AstNode, arg: &AstNode) -> (r: Option<AstNode>)
    requires
        node@.is_expanded(),
        arg@.is_expanded(),
    ensures
        r is Some <==> subst(node@, 0, arg@).fits(),
        r matches Some(t) ==> t@ == subst(node@, 0, arg@),
{
    substitute_walk(node, 0, arg)
}

/// Why a reduction gave no normal form.
#[derive(Debug, Clone, Copy, PartialEq, Eq, Structural)]
pub enum ReduceError {
    /// The step budget ran out before a normal form was reached.
    DidNotConverge,
    /// A step produced an index that does not fit in `u32`.
    IndexOverflow,
}

/// One step of head reduction: the redex at the head of the application
/// spine is contracted. `None` when the head is no redex.
pub open spec fn head_step(t: Term) -> Option<Term>
    decreases t,
{
    match t {
        Term::App(a, b) => match *a {
            Term::Lam(body) => Some(subst(*body, 0, *b)),
            _ => match head_step(*a) {
                Some(a2) => Some(Term::App(Box::new(a2), b)),
                None => None,
            },
        },
        _ => None,
    }
}

/// One step of normal-order reduction: the leftmost outermost redex is
/// contracted, also under binders. `None` when the term is in normal form.
pub open spec fn step(t: Term) -> Option<Term>
    decreases t,
{
    match t {
        Term::App(a, b) => match *a {
            Term::Lam(body) => Some(subst(*body, 0, *b)),
            _ => match step(*a) {
                Some(a2) => Some(Term::App(Box::new(a2), b)),
                None => match step(*b) {
                    Some(b2) => Some(Term::App(a, Box::new(b2))),
                    None => None,
                },
            },
        },
        Term::Lam(body) => match step(*body) {
            Some(body2) => Some(Term::Lam(Box::new(body2))),
            None => None,
        },
        _ => None,
    }
}

/// A term without a redex.
pub open spec fn is_normal(t: Term) -> bool {
    step(t) is None
}

/// The step that a reduction takes next: a head step when it only looks for
/// a function (`to_fn`), a normal-order step otherwise.
pub open spec fn next_step(t: Term, to_fn: bool) -> Option<Term> {
    if to_fn {
        head_step(t)
    } else {
        step(t)
    }
}

/// Reduction under a budget of steps: the steps of `next_step` are taken
/// until none is left, and the term reached is returned with what remains of
/// the budget. It fails when a step is due and the budget is spent, or when
/// the term after a step cannot be stored.
pub open spec fn run(t: Term, to_fn: bool, fuel: nat) -> Result<(Term, nat), ReduceError>
    decreases fuel,
{
    match next_step(t, to_fn) {
        None => Ok((t, fuel)),
        Some(u) => if fuel == 0 {
            Err(ReduceError::DidNotConverge)
        } else if !u.fits() {
            Err(ReduceError::IndexOverflow)
        } else {
            run(u, to_fn, (fuel - 1) as nat)
        },
    }
}

/// The normal form of `t`, if normal-order reduction reaches it within
/// `fuel` steps.
pub open spec fn normalize(t: Term, fuel: nat) -> Result<Term, ReduceError> {
    match run(t, false, fuel) {
        Ok((n, _)) => Ok(n),
        Err(e) => Err(e),
    }
}

/// An executable outcome and a specified one are the same.
pub open spec fn agrees(
    r: Result<(AstNode, u64), ReduceError>,
    m: Result<(Term, nat), ReduceError>,
) -> bool {
    match (r, m) {
        (Ok((node, left)), Ok((t, k))) => node@ == t && left as nat == k,
        (Err(e), Err(f)) => e == f,
        _ => false,
    }
}

/// A term that is no function and has no head redex: a variable applied to
/// any number of arguments.
pub open spec fn is_neutral(t: Term) -> bool {
    !(t is Lam) && head_step(t) is None
}

/// Lifting brings no name into a term.
proof fn lemma_shift_expanded(t: Term, by: nat, threshold: nat)
    requires
        t.is_expanded(),
    ensures
        shift(t, by, threshold).is_expanded(),
    decreases t,
{
    match t {
        Term::App(a, b) => {
            lemma_shift_expanded(*a, by, threshold);
            lemma_shift_expanded(*b, by, threshold);
        },
        Term::Lam(body) => {
            lemma_shift_expanded(*body, by, threshold + 1);
        },
        _ => {},
    }
}

/// Substituting a term without names into one brings no name in.
proof fn lemma_subst_expanded(t: Term, depth: nat, arg: Term)
    requires
        t.is_expanded(),
        arg.is_expanded(),
    ensures
        subst(t, depth, arg).is_expanded(),
    decreases t,
{
    match t {
        Term::Bound(k) => {
            lemma_shift_expanded(arg, depth, 0);
        },
        Term::App(a, b) => {
            lemma_subst_expanded(*a, depth, arg);
            lemma_subst_expanded(*b, depth, arg);
        },
        Term::Lam(body) => {
            lemma_subst_expanded(*body, depth + 1, arg);
        },
        _ => {},
    }
}

/// A step never brings a name into a term that has none.
pub proof fn lemma_step_expanded(t: Term)
    requires
        t.is_expanded(),
    ensures
        step(t) matches Some(u) ==> u.is_expanded(),
    decreases t,
{
    match t {
        Term::App(a, b) => {
            match *a {
                Term::Lam(body) => {
                    assert(a.is_expanded());
                    lemma_subst_expanded(*body, 0, *b);
                },
                _ => {
                    lemma_step_expanded(*a);
                    lemma_step_expanded(*b);
                },
            }
        },
        Term::Lam(body) => {
            lemma_step_expanded(*body);
        },
        _ => {},
    }
}

/// A head step is the normal-order step.
pub proof fn lemma_head_step_is_step(t: Term)
    ensures
        head_step(t) matches Some(u) ==> step(t) == Some(u),
    decreases t,
{
    match t {
        Term::App(a, b) => {
            lemma_head_step_is_step(*a);
        },
        _ => {},
    }
}

/// What holds of the term that a reduction ends in.
pub proof fn lemma_run_result(t: Term, to_fn: bool, fuel: nat)
    requires
        t.fits(),
        t.is_expanded(),
    ensures
        run(t, to_fn, fuel) matches Ok((h, left)) ==> {
            &&& next_step(h, to_fn) is None
            &&& left <= fuel
            &&& h.fits()
            &&& h.is_expanded()
            &&& (left == fuel ==> h == t)
        },
    decreases fuel,
{
    match next_step(t, to_fn) {
        None => {},
        Some(u) => {
            if fuel > 0 && u.fits() {
                lemma_head_step_is_step(t);
                lemma_step_expanded(t);
                lemma_run_result(u, to_fn, (fuel - 1) as nat);
            }
        },
    }
}

/// Reducing an application starts with the head reduction of its left side.
proof fn lemma_run_app_head(a: Term, b: Term, to_fn: bool, fuel: nat)
    requires
        b.fits(),
    ensures
        run(Term::App(Box::new(a), Box::new(b)), to_fn, fuel) == (match run(a, true, fuel) {
            Err(e) => Err(e),
            Ok((h, left)) => run(Term::App(Box::new(h), Box::new(b)), to_fn, left),
        }),
    decreases fuel,
{
    if !(a is Lam) {
        match head_step(a) {
            None => {},
            Some(a2) => {
                lemma_head_step_is_step(a);
                if fuel > 0 && a2.fits() {
                    lemma_run_app_head(a2, b, to_fn, (fuel - 1) as nat);
                }
            },
        }
    }
}

/// A step keeps a neutral term neutral.
proof fn lemma_step_neutral(t: Term)
    requires
        is_neutral(t),
    ensures
        step(t) matches Some(u) ==> is_neutral(u),
    decreases t,
{
    match t {
        Term::App(a, b) => {
            lemma_step_neutral(*a);
        },
        _ => {},
    }
}

/// Under a neutral head, an application is normalised side by side, left
/// first.
proof fn lemma_run_app_neutral(h: Term, b: Term, fuel: nat)
    requires
        is_neutral(h),
        h.fits(),
        b.fits(),
    ensures
        run(Term::App(Box::new(h), Box::new(b)), false, fuel) == (match run(h, false, fuel) {
            Err(e) => Err(e),
            Ok((nh, left)) => match run(b, false, left) {
                Err(e) => Err(e),
                Ok((nb, rest)) => Ok((Term::App(Box::new(nh), Box::new(nb)), rest)),
            },
        }),
    decreases fuel,
{
    match step(h) {
        Some(h2) => {
            lemma_step_neutral(h);
            if fuel > 0 && h2.fits() {
                lemma_run_app_neutral(h2, b, (fuel - 1) as nat);
            }
        },
        None => {
            match step(b) {
                Some(b2) => {
                    if fuel > 0 && b2.fits() {
                        lemma_run_app_neutral(h, b2, (fuel - 1) as nat);
                    }
                },
                None => {},
            }
        },
    }
}

/// A function is normalised by normalising its body.
proof fn lemma_run_lam(body: Term, fuel: nat)
    ensures
        run(Term::Lam(Box::new(body)), false, fuel) == (match run(body, false, fuel) {
            Err(e) => Err(e),
            Ok((nb, left)) => Ok((Term::Lam(Box::new(nb)), left)),
        }),
    decreases fuel,
{
    match step(body) {
        Some(body2) => {
            if fuel > 0 && body2.fits() {
                lemma_run_lam(body2, (fuel - 1) as nat);
            }
        },
        None => {},
    }
}

/// Reduces the application of `left` to `right`: `left` is reduced to its
/// head first; a function there is applied, anything else stays in place.
pub fn reduce_application(left: &AstNode, right: &AstNode, to_fn: bool, fuel: u64) -> (r: Result<
    (AstNode, u64),
    ReduceError,
>)
    requires
        left@.is_expanded(),
        right@.is_expanded(),
    ensures
        agrees(r, run(Term::App(Box::new(left@), Box::new(right@)), to_fn, fuel as nat)),
    decreases fuel, 1 + left@.size() + right@.size(), 0nat,
{
    proof {
        lemma_model_fits(left);
        lemma_model_fits(right);
        lemma_run_app_head(left@, right@, to_fn, fuel as nat);
        lemma_run_result(left@, true, fuel as nat);
    }
    match reduce_node(left, true, fuel) {
        Err(e) => Err(e),
        Ok((left_fn, fuel_left)) => match left_fn {
            AstNode::Function(body) => {
                if fuel_left == 0 {
                    Err(ReduceError::DidNotConverge)
                } else {
                    proof {
                        assert(left_fn@.is_expanded());
                        lemma_subst_expanded(body@, 0, right@);
                    }
                    match substitute(&body, right) {
                        None => Err(ReduceError::IndexOverflow),
                        Some(contracted) => reduce_node(&contracted, to_fn, fuel_left - 1),
                    }
                }
            },
            AstNode::Name(_) => unreached(),
            _ => {
                if to_fn {
                    Ok((AstNode::Application(Box::new(left_fn), Box::new(copy_node(right))), fuel_left))
                } else {
                    proof {
                        lemma_run_app_neutral(left_fn@, right@, fuel_left as nat);
                        lemma_run_result(left_fn@, false, fuel_left as nat);
                    }
                    match reduce_node(&left_fn, false, fuel_left) {
                        Err(e) => Err(e),
                        Ok((head, fuel_mid)) => match reduce_node(right, false, fuel_mid) {
                            Err(e) => Err(e),
                            Ok((arg, fuel_end)) => Ok(
                                (AstNode::Application(Box::new(head), Box::new(arg)), fuel_end),
                            ),
                        },
                    }
                }
            },
        },
    }
}

/// Reduces `node` within `fuel` steps and returns the term reached with the
/// steps that are left: to weak head normal form when `to_fn` is set, to
/// full normal form otherwise.
pub fn reduce_node(node: &AstNode, to_fn: bool, fuel: u64) -> (r: Result<
    (AstNode, u64),
    ReduceError,
>)
    requires
        node@.is_expanded(),
    ensures
        agrees(r, run(node@, to_fn, fuel as nat)),
    decreases fuel, node@.size(), 1nat,
{
    match node {
        AstNode::Function(body) => {
            if to_fn {
                Ok((copy_node(node), fuel))
            } else {
                proof {
                    lemma_run_lam(body@, fuel as nat);
                }
                match reduce_node(body, false, fuel) {
                    Err(e) => Err(e),
                    Ok((inner, fuel_left)) => Ok((AstNode::Function(Box::new(inner)), fuel_left)),
                }
            }
        },
        AstNode::Application(a, b) => reduce_application(a, b, to_fn, fuel),
        AstNode::Name(_) => unreached(),
        _ => Ok((copy_node(node), fuel)),
    }
}

/// Reduces `node` to normal form in normal order, within `fuel` steps.
pub fn beta_reduce(node: &AstNode, fuel: u64) -> (r: Result<AstNode, ReduceError>)
    requires
        node@.is_expanded(),
    ensures
        match (r, normalize(node@, fuel as nat)) {
            (Ok(reduced), Ok(t)) => reduced@ == t,
            (Err(e), Err(f)) => e == f,
            _ => false,
        },
{
    match reduce_node(node, false, fuel) {
        Ok((reduced, _)) => Ok(reduced),
        Err(e) => Err(e),
    }
}

/// Lifting a term by `by` keeps its indices in scope under `by` more
/// binders.
pub proof fn lemma_shift_scoped(t: Term, by: nat, threshold: nat, depth: nat)
    requires
        t.scoped(depth),
        threshold <= depth,
    ensures
        shift(t, by, threshold).scoped(depth + by),
    decreases t,
{
    match t {
        Term::App(a, b) => {
            lemma_shift_scoped(*a, by, threshold, depth);
            lemma_shift_scoped(*b, by, threshold, depth);
        },
        Term::Lam(body) => {
            lemma_shift_scoped(*body, by, threshold + 1, depth + 1);
        },
        _ => {},
    }
}

/// Substituting a term in scope for a binder leaves a term in scope under
/// one binder fewer.
pub proof fn lemma_subst_scoped(t: Term, at: nat, arg: Term, depth: nat)
    requires
        t.scoped(depth + 1),
        at <= depth,
        arg.scoped((depth - at) as nat),
    ensures
        subst(t, at, arg).scoped(depth),
    decreases t,
{
    match t {
        Term::Bound(k) => {
            if k == at {
                lemma_shift_scoped(arg, at, 0, (depth - at) as nat);
            }
        },
        Term::App(a, b) => {
            lemma_subst_scoped(*a, at, arg, depth);
            lemma_subst_scoped(*b, at, arg, depth);
        },
        Term::Lam(body) => {
            lemma_subst_scoped(*body, at + 1, arg, depth + 1);
        },
        _ => {},
    }
}

/// A step keeps every index in scope.
pub proof fn lemma_step_scoped(t: Term, depth: nat)
    requires
        t.scoped(depth),
    ensures
        step(t) matches Some(u) ==> u.scoped(depth),
    decreases t,
{
    match t {
        Term::App(a, b) => {
            match *a {
                Term::Lam(body) => {
                    assert(a.scoped(depth));
                    lemma_subst_scoped(*body, 0, *b, depth);
                },
                _ => {
                    lemma_step_scoped(*a, depth);
                    lemma_step_scoped(*b, depth);
                },
            }
        },
        Term::Lam(body) => {
            lemma_step_scoped(*body, depth + 1);
        },
        _ => {},
    }
}

/// Reduction keeps every index in scope: the normal form of a closed term is
/// closed.
pub proof fn law_normalize_keeps_scope(t: Term, depth: nat, fuel: nat)
    requires
        t.scoped(depth),
    ensures
        normalize(t, fuel) matches Ok(n) ==> n.scoped(depth),
    decreases fuel,
{
    match step(t) {
        None => {},
        Some(u) => {
            lemma_step_scoped(t, depth);
            if fuel > 0 && u.fits() {
                law_normalize_keeps_scope(u, depth, (fuel - 1) as nat);
            }
        },
    }
}

/// The function that returns its first argument and discards the second.
pub open spec fn constant_function() -> Term {
    Term::Lam(Box::new(Term::Lam(Box::new(Term::Bound(1)))))
}

/// Lifting a term over a binder and then substituting for that binder gives
/// the term back, whatever is substituted.
pub proof fn lemma_subst_shift_cancel(t: Term, depth: nat, arg: Term)
    ensures
        subst(shift(t, 1, depth), depth, arg) == t,
    decreases t,
{
    match t {
        Term::App(a, b) => {
            lemma_subst_shift_cancel(*a, depth, arg);
            lemma_subst_shift_cancel(*b, depth, arg);
        },
        Term::Lam(body) => {
            lemma_subst_shift_cancel(*body, depth + 1, arg);
        },
        _ => {},
    }
}

/// A reduction that succeeds ends in a term on which no further step of its
/// kind applies.
pub proof fn lemma_run_ends_stuck(t: Term, to_fn: bool, fuel: nat)
    ensures
        run(t, to_fn, fuel) matches Ok((h, left)) ==> next_step(h, to_fn) is None && left <= fuel,
    decreases fuel,
{
    match next_step(t, to_fn) {
        None => {},
        Some(u) => {
            if fuel > 0 && u.fits() {
                lemma_run_ends_stuck(u, to_fn, (fuel - 1) as nat);
            }
        },
    }
}

/// Normalisation is idempotent: what `normalize` returns is in normal form,
/// and normalising it again, under any budget, returns it unchanged.
pub proof fn law_normalize_idempotent(t: Term, fuel: nat, again: nat)
    ensures
        normalize(t, fuel) matches Ok(n) ==> is_normal(n) && normalize(n, again) == Ok::<
            Term,
            ReduceError,
        >(n),
{
    lemma_run_ends_stuck(t, false, fuel);
}

/// A larger budget never changes a normal form that a smaller one reached.
pub proof fn law_budget_monotonic(t: Term, fuel: nat, more: nat)
    requires
        fuel <= more,
    ensures
        normalize(t, fuel) matches Ok(n) ==> normalize(t, more) == Ok::<Term, ReduceError>(n),
    decreases fuel,
{
    match step(t) {
        None => {},
        Some(u) => {
            if fuel > 0 && u.fits() {
                law_budget_monotonic(u, (fuel - 1) as nat, (more - 1) as nat);
            }
        },
    }
}

/// Applying the constant function to `a` and then to `b` reduces, in two
/// steps, to `a` itself with its indices as they were: the lift that the
/// first step gives `a` is undone by the second. What normalisation makes of
/// the application is therefore what it makes of `a` with two steps fewer.
/// `a` must leave room for the lift by one.
pub proof fn law_constant_function_returns_first(a: Term, b: Term, fuel: nat)
    requires
        a.fits(),
        b.fits(),
        shift(a, 1, 0).fits(),
    ensures
        normalize(
            Term::App(
                Box::new(Term::App(Box::new(constant_function()), Box::new(a))),
                Box::new(b),
            ),
            fuel + 2,
        ) == normalize(a, fuel),
{
    let inner = Term::App(Box::new(constant_function()), Box::new(a));
    let start = Term::App(Box::new(inner), Box::new(b));
    let lifted = Term::Lam(Box::new(shift(a, 1, 0)));
    let middle = Term::App(Box::new(lifted), Box::new(b));
    assert(subst(Term::Lam(Box::new(Term::Bound(1))), 0, a) == lifted) by {
        assert(subst(Term::Bound(1), 1, a) == shift(a, 1, 0));
    }
    assert(step(inner) == Some(lifted));
    assert(step(start) == Some(middle));
    lemma_subst_shift_cancel(a, 0, b);
    assert(step(middle) == Some(a));
    assert(lifted.fits());
    assert(middle.fits());
    assert(run(start, false, fuel + 2) == run(middle, false, fuel + 1));
    assert(run(middle, false, fuel + 1) == run(a, false, fuel));
}

} // verus!
