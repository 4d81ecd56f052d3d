//! Expression trees for the lambda calculus with `let`.

use vstd::prelude::*;

verus! {

/// An expression: a variable reference, an application, an abstraction,
/// or a let-binding.
#[derive(Debug, PartialEq, Eq)]
pub enum Expr {
    Var(String),
    App(Box<Expr>, Box<Expr>),
    Abs(String, Box<Expr>),
    Let(String, Box<Expr>, Box<Expr>),
}

/// Whether `e` refers, at some use site, to a variable that is neither
/// bound by an enclosing binder nor among `bound`.
pub open spec fn has_unbound(e: Expr, bound: Set<Seq<char>>) -> bool
    decreases e,
{
    match e {
        Expr::Var(x) => !bound.contains(x@),
        Expr::App(e1, e2) => has_unbound(*e1, bound) || has_unbound(*e2, bound),
        Expr::Abs(x, body) => has_unbound(*body, bound.insert(x@)),
        Expr::Let(x, e1, e2) => has_unbound(*e1, bound) || has_unbound(
            *e2,
            bound.insert(x@),
        ),
    }
}

impl Expr {
    /// A reference to the variable `x`.
    pub fn var(x: &str) -> (r: Expr)
        ensures
            r matches Expr::Var(y) && y@ == x@,
    {
        Expr::Var(x.to_owned())
    }

    /// The application of `e1` to `e2`.
    pub fn app(e1: Expr, e2: Expr) -> (r: Expr)
        ensures
            r matches Expr::App(f1, f2) && *f1 == e1 && *f2 == e2,
    {
        Expr::App(Box::new(e1), Box::new(e2))
    }

    /// The abstraction binding `x` over the body `e`.
    pub fn abs(x: &str, e: Expr) -> (r: Expr)
        ensures
            r matches Expr::Abs(y, f) && y@ == x@ && *f == e,
    {
        Expr::Abs(x.to_owned(), Box::new(e))
    }

    /// The expression binding `x` to `e1` within `e2`.
    pub fn let_in(x: &str, e1: Expr, e2: Expr) -> (r: Expr)
        ensures
            r matches Expr::Let(y, f1, f2) && y@ == x@ && *f1 == e1 && *f2 == e2,
    {
        Expr::Let(x.to_owned(), Box::new(e1), Box::new(e2))
    }

    /// Whether the expression needs no parentheses when printed as the
    /// left operand of an application.
    pub fn is_closed(&self) -> (r: bool)
        ensures
            r == (self matches Expr::Var(..) || self matches Expr::App(..)),
    {
        match self {
            Expr::Var(..) | Expr::App(..) => true,
            Expr::Abs(..) | Expr::Let(..) => false,
        }
    }

    /// Whether the expression is a bare variable reference.
    pub fn is_var(&self) -> (r: bool)
        ensures
            r == (self matches Expr::Var(..)),
    {
        matches!(self, Expr::Var(..))
    }
}

} // verus!
