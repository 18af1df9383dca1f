//! The term tree and its mathematical model.

use vstd::prelude::*;

verus! {

/// A term of the untyped lambda calculus in binder-distance form.
#[derive(Debug, PartialEq, Eq)]
pub enum AstNode {
    /// A single-letter variable that no enclosing function binds.
    FreeVariable(char),
    /// A variable given by the number of functions between it and its binder.
    BoundVariable(u32),
    /// The left term applied to the right term.
    Application(Box<AstNode>, Box<AstNode>),
    /// A one-parameter function; the parameter has no stored name.
    Function(Box<AstNode>),
    /// A reference to a named definition, not yet expanded.
    Name(String),
}

/// The mathematical model of a term: indices are unbounded and names are
/// sequences of characters.
pub ghost enum Term {
    Free(char),
    Bound(nat),
    App(Box<Term>, Box<Term>),
    Lam(Box<Term>),
    Name(Seq<char>),
}

impl AstNode {
    /// The term that this tree stands for.
    pub open spec fn model(&self) -> Term
        decreases self,
    {
        match self {
            AstNode::FreeVariable(c) => Term::Free(*c),
            AstNode::BoundVariable(k) => Term::Bound(*k as nat),
            AstNode::Application(a, b) => Term::App(Box::new(a.model()), Box::new(b.model())),
            AstNode::Function(body) => Term::Lam(Box::new(body.model())),
            AstNode::Name(s) => Term::Name(s@),
        }
    }
}

impl View for AstNode {
    type V = Term;

    open spec fn view(&self) -> Term {
        self.model()
    }
}

impl Term {
    /// The number of nodes of the term.
    pub open spec fn size(self) -> nat
        decreases self,
    {
        match self {
            Term::App(a, b) => 1 + a.size() + b.size(),
            Term::Lam(body) => 1 + body.size(),
            _ => 1,
        }
    }

    /// Every index of the term can be stored in a `u32`.
    pub open spec fn fits(self) -> bool
        decreases self,
    {
        match self {
            Term::Bound(k) => k <= u32::MAX,
            Term::App(a, b) => a.fits() && b.fits(),
            Term::Lam(body) => body.fits(),
            _ => true,
        }
    }

    /// Every index of the term refers to a binder inside the term or to one
    /// of `depth` binders around it.
    pub open spec fn scoped(self, depth: nat) -> bool
        decreases self,
    {
        match self {
            Term::Bound(k) => k < depth,
            Term::App(a, b) => a.scoped(depth) && b.scoped(depth),
            Term::Lam(body) => body.scoped(depth + 1),
            _ => true,
        }
    }

    /// No index of the term points past its own binders.
    pub open spec fn is_closed(self) -> bool {
        self.scoped(0)
    }

    /// No `Name` node occurs in the term.
    pub open spec fn is_expanded(self) -> bool
        decreases self,
    {
        match self {
            Term::App(a, b) => a.is_expanded() && b.is_expanded(),
            Term::Lam(body) => body.is_expanded(),
            Term::Name(_) => false,
            _ => true,
        }
    }
}

/// The model of a stored tree never holds an index beyond `u32`.
pub proof fn lemma_model_fits(node: &AstNode)
    ensures
        node@.fits(),
    decreases node,
{
    match node {
        AstNode::Application(a, b) => {
            lemma_model_fits(a);
            lemma_model_fits(b);
        },
        AstNode::Function(body) => {
            lemma_model_fits(body);
        },
        _ => {},
    }
}

} // verus!
