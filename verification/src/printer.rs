//! Rendering of terms as source-like text.

use crate::term::{lemma_model_fits, AstNode, Term};
use crate::text::{decimal_text, push_decimal};
use vstd::prelude::*;
use vstd::string::StringExecFns;

verus! {

/// The glyph for a binder that the alphabet has no letter for, and for an
/// index that points past every enclosing binder.
pub open spec fn placeholder() -> char {
    '?'
}

/// The display name of the binder at nesting `depth`: `a` for the outermost,
/// then on through the alphabet, then the placeholder.
pub open spec fn binder_letter(depth: nat) -> char {
    if depth < 26 {
        ((97 + depth) as u8) as char
    } else {
        placeholder()
    }
}

/// The display name of the variable with index `index` under `depth`
/// binders: the name of the binder `index + 1` levels up.
pub open spec fn variable_letter(depth: nat, index: nat) -> char {
    if index < depth {
        binder_letter((depth - index - 1) as nat)
    } else {
        placeholder()
    }
}

/// The text of `t` under `depth` binders. The right side of an application
/// is put in parentheses when it is an application, and a function when it
/// stands directly in an application (`in_application`).
pub open spec fn render(t: Term, depth: nat, in_application: bool) -> Seq<char>
    decreases t,
{
    match t {
        Term::App(a, b) => {
            let left = render(*a, depth, true);
            let right = render(*b, depth, true);
            if *b is App {
                left + seq![' ', '('] + right + seq![')']
            } else {
                left + seq![' '] + right
            }
        },
        Term::Bound(k) => seq![variable_letter(depth, k)],
        Term::Free(c) => seq![c],
        Term::Lam(body) => {
            let inner = seq!['\\', binder_letter(depth), '.'] + render(*body, depth + 1, false);
            if in_application {
                seq!['('] + inner + seq![')']
            } else {
                inner
            }
        },
        Term::Name(name) => name,
    }
}

/// From this nesting on, no binder and no variable of a stored term has a
/// letter, so the text no longer depends on the depth.
pub const DEPTH_CAP: u64 = 0x1_0000_001a;

/// Beyond the cap the text of a stored term is the same at every depth.
proof fn lemma_render_beyond_cap(t: Term, d1: nat, d2: nat, in_application: bool)
    requires
        t.fits(),
        d1 >= DEPTH_CAP,
        d2 >= DEPTH_CAP,
    ensures
        render(t, d1, in_application) == render(t, d2, in_application),
    decreases t,
{
    match t {
        Term::App(a, b) => {
            lemma_render_beyond_cap(*a, d1, d2, true);
            lemma_render_beyond_cap(*b, d1, d2, true);
        },
        Term::Lam(body) => {
            lemma_render_beyond_cap(*body, d1 + 1, d2 + 1, false);
        },
        _ => {},
    }
}

/// The display name of the binder at nesting `depth`.
fn letter_for(depth: u64) -> (c: char)
    ensures
        c == binder_letter(depth as nat),
{
    if depth < 26 {
        (97u8 + (depth as u8)) as char
    } else {
        '?'
    }
}

/// Appends the text of `node`, which stands under `current_depth` binders,
/// to `out`.
pub fn pretty_print_walk(node: &AstNode, current_depth: u64, in_application: bool, out: &mut String)
    ensures
        final(out)@ == old(out)@ + render(node@, current_depth as nat, in_application),
    decreases node,
{
    match node {
        AstNode::Application(a, b) => {
            pretty_print_walk(a, current_depth, true, out);
            out.push(' ');
            match **b {
                AstNode::Application(_, _) => {
                    out.push('(');
                    pretty_print_walk(b, current_depth, true, out);
                    out.push(')');
                },
                _ => {
                    pretty_print_walk(b, current_depth, true, out);
                },
            }
            assert(out@ =~= old(out)@ + render(node@, current_depth as nat, in_application));
        },
        AstNode::BoundVariable(num) => {
            let index = *num as u64;
            let ch = if index < current_depth {
                letter_for(current_depth - index - 1)
            } else {
                '?'
            };
            out.push(ch);
            assert(out@ =~= old(out)@ + render(node@, current_depth as nat, in_application));
        },
        AstNode::FreeVariable(ch) => {
            out.push(*ch);
            assert(out@ =~= old(out)@ + render(node@, current_depth as nat, in_application));
        },
        AstNode::Function(body) => {
            let param = letter_for(current_depth);
            if in_application {
                out.push('(');
            }
            out.push('\\');
            out.push(param);
            out.push('.');
            if current_depth < DEPTH_CAP {
                pretty_print_walk(body, current_depth + 1, false, out);
            } else {
                proof {
                    lemma_model_fits(body);
                    lemma_render_beyond_cap(
                        body@,
                        current_depth as nat,
                        current_depth as nat + 1,
                        false,
                    );
                }
                pretty_print_walk(body, current_depth, false, out);
            }
            if in_application {
                out.push(')');
            }
            assert(out@ =~= old(out)@ + render(node@, current_depth as nat, in_application));
        },
        AstNode::Name(name) => {
            out.append(name.as_str());
        },
    }
}

/// The text of `node`: binders are named `a`, `b`, ... from the outside in.
pub fn pretty_print(node: &AstNode) -> (text: String)
    ensures
        text@ == render(node@, 0, false),
{
    let mut text = String::new();
    pretty_print_walk(node, 0, false, &mut text);
    text
}

/// The text of `t` in the internal format: every index as a number, every
/// function and every application in parentheses.
pub open spec fn raw_text(t: Term) -> Seq<char>
    decreases t,
{
    match t {
        Term::Free(c) => seq![c],
        Term::Bound(k) => decimal_text(k),
        Term::Lam(body) => seq!['(', '\\'] + raw_text(*body) + seq![')'],
        Term::App(a, b) => seq!['('] + raw_text(*a) + seq![' '] + raw_text(*b) + seq![')'],
        Term::Name(name) => name,
    }
}

/// Appends the text of `node` in the internal format to `out`.
fn print_node_walk(node: &AstNode, out: &mut String)
    ensures
        final(out)@ == old(out)@ + raw_text(node@),
    decreases node,
{
    match node {
        AstNode::FreeVariable(ch) => {
            out.push(*ch);
        },
        AstNode::BoundVariable(v) => {
            push_decimal(out, *v as u128);
        },
        AstNode::Function(body) => {
            out.push('(');
            out.push('\\');
            print_node_walk(body, out);
            out.push(')');
        },
        AstNode::Application(a, b) => {
            out.push('(');
            print_node_walk(a, out);
            out.push(' ');
            print_node_walk(b, out);
            out.push(')');
        },
        AstNode::Name(name) => {
            out.append(name.as_str());
        },
    }
    assert(out@ =~= old(out)@ + raw_text(node@));
}

/// The text of `node` in the internal format, which shows the indices that
/// the parser gave the variables.
pub fn print_node(node: &AstNode) -> (text: String)
    ensures
        text@ == raw_text(node@),
{
    let mut text = String::new();
    print_node_walk(node, &mut text);
    text
}

} // verus!
