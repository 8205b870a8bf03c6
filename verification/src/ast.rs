//! The statement tree that the parser produces.

use vstd::prelude::*;
use crate::token::TokenKind;

verus! {

/// An expression node. Every node owns its children.
#[derive(Debug, PartialEq, Eq)]
pub enum Expr {
    Binary(Box<Expr>, TokenKind, Box<Expr>),
    Unary(TokenKind, Box<Expr>),
    Unit(Box<Expr>, TokenKind),
    Var(String),
    Group(Box<Expr>),
    FnCall(String, Vec<Expr>),
    Literal(String),
}

/// A statement, the unit that an interpreter consumes.
#[derive(Debug, PartialEq, Eq)]
pub enum Stmt {
    VarDecl(String, Box<Expr>),
    FnDecl(String, Vec<String>, Box<Expr>),
    Expr(Box<Expr>),
}

/// The angle convention used when a statement tree is evaluated.
#[derive(Debug, Clone, Copy, PartialEq, Eq, Structural)]
pub enum Unit {
    Radians,
    Degrees,
}

/// The mathematical content of an [`Expr`].
pub enum ExprView {
    Binary(Box<ExprView>, TokenKind, Box<ExprView>),
    Unary(TokenKind, Box<ExprView>),
    Unit(Box<ExprView>, TokenKind),
    Var(Seq<char>),
    Group(Box<ExprView>),
    FnCall(Seq<char>, Seq<ExprView>),
    Literal(Seq<char>),
}

/// The mathematical content of a [`Stmt`].
pub enum StmtView {
    VarDecl(Seq<char>, ExprView),
    FnDecl(Seq<char>, Seq<Seq<char>>, ExprView),
    Expr(ExprView),
}

impl Expr {
    /// The tree with every string and argument list replaced by its view.
    pub open spec fn model(self) -> ExprView
        decreases self,
    {
        match self {
            Expr::Binary(left, op, right) => ExprView::Binary(
                Box::new(left.model()),
                op,
                Box::new(right.model()),
            ),
            Expr::Unary(op, operand) => ExprView::Unary(op, Box::new(operand.model())),
            Expr::Unit(operand, unit) => ExprView::Unit(Box::new(operand.model()), unit),
            Expr::Var(name) => ExprView::Var(name@),
            Expr::Group(inner) => ExprView::Group(Box::new(inner.model())),
            Expr::FnCall(name, arguments) => ExprView::FnCall(
                name@,
                Seq::new(
                    arguments.len() as nat,
                    |i: int|
                        if 0 <= i < arguments.len() {
                            arguments[i].model()
                        } else {
                            ExprView::Literal(Seq::empty())
                        },
                ),
            ),
            Expr::Literal(text) => ExprView::Literal(text@),
        }
    }
}

impl View for Expr {
    type V = ExprView;

    open spec fn view(&self) -> ExprView {
        self.model()
    }
}

/// The views of a sequence of expressions, in order.
pub open spec fn expr_views(exprs: Seq<Expr>) -> Seq<ExprView> {
    Seq::new(exprs.len(), |i: int| exprs[i]@)
}

/// The views of a sequence of strings, in order.
pub open spec fn string_views(strings: Seq<String>) -> Seq<Seq<char>> {
    Seq::new(strings.len(), |i: int| strings[i]@)
}

/// The views of a sequence of statements, in order.
pub open spec fn stmt_views(statements: Seq<Stmt>) -> Seq<StmtView> {
    Seq::new(statements.len(), |i: int| statements[i]@)
}

/// The view of a call holds the views of its arguments.
pub proof fn lemma_call_view(call: Expr)
    requires
        call is FnCall,
    ensures
        call@ == ExprView::FnCall(call->FnCall_0@, expr_views(call->FnCall_1@)),
{
    assert(call@->FnCall_1 =~= expr_views(call->FnCall_1@));
}

impl View for Stmt {
    type V = StmtView;

    open spec fn view(&self) -> StmtView {
        match self {
            Stmt::VarDecl(name, value) => StmtView::VarDecl(name@, value@),
            Stmt::FnDecl(name, parameters, body) => StmtView::FnDecl(
                name@,
                string_views(parameters@),
                body@,
            ),
            Stmt::Expr(expr) => StmtView::Expr(expr@),
        }
    }
}

impl Expr {
    /// A deep copy of the argument list of a call.
    fn clone_all(exprs: &Vec<Expr>) -> (copies: Vec<Expr>)
        ensures
            expr_views(copies@) == expr_views(exprs@),
        decreases exprs,
    {
        let mut copies: Vec<Expr> = Vec::new();
        let mut i: usize = 0;
        while i < exprs.len()
            invariant
                i <= exprs.len(),
                copies.len() == i,
                forall|j: int| 0 <= j < i ==> copies[j]@ == exprs[j]@,
            decreases exprs.len() - i,
        {
            let copy = exprs[i].clone();
            copies.push(copy);
            i += 1;
        }
        assert(expr_views(copies@) =~= expr_views(exprs@));
        copies
    }
}

impl Clone for Expr {
    /// A deep copy of the tree.
    fn clone(&self) -> (copy: Expr)
        ensures
            copy@ == self@,
        decreases self,
    {
        match self {
            Expr::Binary(left, op, right) => Expr::Binary(
                Box::new((**left).clone()),
                *op,
                Box::new((**right).clone()),
            ),
            Expr::Unary(op, operand) => Expr::Unary(*op, Box::new((**operand).clone())),
            Expr::Unit(operand, unit) => Expr::Unit(Box::new((**operand).clone()), *unit),
            Expr::Var(name) => Expr::Var(name.clone()),
            Expr::Group(inner) => Expr::Group(Box::new((**inner).clone())),
            Expr::FnCall(name, arguments) => {
                let copies = Expr::clone_all(arguments);
                let copy = Expr::FnCall(name.clone(), copies);
                proof {
                    lemma_call_view(copy);
                    lemma_call_view(*self);
                }
                copy
            },
            Expr::Literal(text) => Expr::Literal(text.clone()),
        }
    }
}

impl Clone for Stmt {
    /// A deep copy of the statement.
    fn clone(&self) -> (copy: Stmt)
        ensures
            copy@ == self@,
    {
        match self {
            Stmt::VarDecl(name, value) => Stmt::VarDecl(name.clone(), Box::new((**value).clone())),
            Stmt::FnDecl(name, parameters, body) => {
                let mut names: Vec<String> = Vec::new();
                let mut i: usize = 0;
                while i < parameters.len()
                    invariant
                        i <= parameters.len(),
                        names.len() == i,
                        forall|j: int| 0 <= j < i ==> names[j]@ == parameters[j]@,
                    decreases parameters.len() - i,
                {
                    names.push(parameters[i].clone());
                    i += 1;
                }
                assert(string_views(names@) =~= string_views(parameters@));
                Stmt::FnDecl(name.clone(), names, Box::new((**body).clone()))
            },
            Stmt::Expr(expr) => Stmt::Expr(Box::new((**expr).clone())),
        }
    }
}

} // verus!
