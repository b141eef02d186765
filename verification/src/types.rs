//! The syntax tree before and after resolution.
//!
//! First principles:
//! - everything is a function or a value;
//! - only two things exist: `a`, and `a(b)`, where `a` and `b` are each a
//!   function or a value.

use vstd::prelude::*;

pub mod display;

verus! {

/// A variable: one lowercase letter.
#[derive(Debug, PartialEq, Eq)]
pub struct Variable(pub char);

/// A reference to a top-level definition, by its uppercase name.
#[derive(Debug, PartialEq, Eq)]
pub struct AliasLink(pub String);

/// `λv.e1 e2 ...`: a parameter and the juxtaposed expressions of the body.
#[derive(Debug, PartialEq, Eq)]
pub struct Function {
    pub variable: Variable,
    pub expression: Vec<Expression>,
}

/// An expression as written: a function, a variable, or a reference to a
/// definition.
#[derive(Debug, PartialEq, Eq)]
pub enum Expression {
    Function(Function),
    Variable(Variable),
    AliasLink(AliasLink),
}

/// A top-level definition `let NAME = expression`.
#[derive(Debug, PartialEq, Eq)]
pub struct Alias {
    pub variable: AliasLink,
    pub expression: Expression,
}

/// The mathematical value of an [`Expression`].
pub enum Expr {
    Function { parameter: char, body: Seq<Expr> },
    Variable { letter: char },
    AliasLink { name: Seq<char> },
}

/// The mathematical value of an [`Alias`].
pub struct Definition {
    pub name: Seq<char>,
    pub expression: Expr,
}

impl View for Variable {
    type V = char;

    open spec fn view(&self) -> char {
        self.0
    }
}

impl View for AliasLink {
    type V = Seq<char>;

    open spec fn view(&self) -> Seq<char> {
        self.0@
    }
}

/// The value of an expression: its letters, names and nesting.
pub open spec fn expression_view(e: Expression) -> Expr
    decreases e,
{
    match e {
        Expression::Function(f) => Expr::Function {
            parameter: f.variable.0,
            body: Seq::new(
                f.expression@.len(),
                |i: int|
                    if 0 <= i < f.expression@.len() {
                        expression_view(f.expression@[i])
                    } else {
                        arbitrary()
                    },
            ),
        },
        Expression::Variable(v) => Expr::Variable { letter: v.0 },
        Expression::AliasLink(a) => Expr::AliasLink { name: a.0@ },
    }
}

impl View for Expression {
    type V = Expr;

    open spec fn view(&self) -> Expr {
        expression_view(*self)
    }
}

impl View for Function {
    type V = Expr;

    open spec fn view(&self) -> Expr {
        expression_view(Expression::Function(*self))
    }
}

impl View for Alias {
    type V = Definition;

    open spec fn view(&self) -> Definition {
        Definition { name: self.variable.0@, expression: self.expression@ }
    }
}

impl Function {
    /// The function of a parameter and a body.
    pub fn from_tuple(parts: (Variable, Vec<Expression>)) -> (function: Self)
        ensures
            function.variable == parts.0,
            function.expression == parts.1,
    {
        let (variable, expression) = parts;
        Self { variable, expression }
    }
}

impl Alias {
    /// The definition of a name and an expression.
    pub fn from_tuple(parts: (AliasLink, Expression)) -> (alias: Self)
        ensures
            alias.variable == parts.0,
            alias.expression == parts.1,
    {
        let (variable, expression) = parts;
        Self { variable, expression }
    }
}

/// The views of a run of expressions, in order.
pub open spec fn expression_views(expressions: Seq<Expression>) -> Seq<Expr> {
    Seq::new(expressions.len(), |i: int| expressions[i]@)
}

/// The views of a run of definitions, in order.
pub open spec fn alias_views(aliases: Seq<Alias>) -> Seq<Definition> {
    Seq::new(aliases.len(), |i: int| aliases[i]@)
}

// -----------------------------------------------------------------------------

/// The identity of a binding. Two variable occurrences refer to the same
/// binder exactly when both are `Bound` with the same number.
#[derive(Clone, Copy, Debug, PartialEq, Eq, Structural)]
pub enum Token {
    Bound(u64),
    Free,
}

impl Token {
    /// Mints the next unused identity and advances the counter past it.
    pub fn new_bound(next: &mut u64) -> (token: Self)
        requires
            *old(next) < u64::MAX,
        ensures
            token == Token::Bound(*old(next)),
            *final(next) == *old(next) + 1,
    {
        let id: u64 = *next;
        *next = id + 1;
        Token::Bound(id)
    }
}

/// A letter and the binding it refers to.
#[derive(Clone, Copy, Debug, PartialEq, Eq, Structural)]
pub struct TVariable(pub char, pub Token);

/// A resolved function: its parameter, with the token of this binder, and
/// the expressions of its body.
#[derive(Debug, PartialEq, Eq)]
pub struct TFunction {
    pub variable: TVariable,
    pub expression: Vec<TExpression>,
}

/// A resolved expression: alias references are gone, every variable carries
/// its token.
#[derive(Debug, PartialEq, Eq)]
pub enum TExpression {
    Function(TFunction),
    Variable(TVariable),
}

/// The mathematical value of a [`TExpression`].
pub enum TExpr {
    Function { parameter: TVariable, body: Seq<TExpr> },
    Variable { variable: TVariable },
}

/// The value of a resolved expression.
pub open spec fn texpression_view(e: TExpression) -> TExpr
    decreases e,
{
    match e {
        TExpression::Function(f) => TExpr::Function {
            parameter: f.variable,
            body: Seq::new(
                f.expression@.len(),
                |i: int|
                    if 0 <= i < f.expression@.len() {
                        texpression_view(f.expression@[i])
                    } else {
                        arbitrary()
                    },
            ),
        },
        TExpression::Variable(v) => TExpr::Variable { variable: v },
    }
}

impl View for TExpression {
    type V = TExpr;

    open spec fn view(&self) -> TExpr {
        texpression_view(*self)
    }
}

impl View for TFunction {
    type V = TExpr;

    open spec fn view(&self) -> TExpr {
        texpression_view(TExpression::Function(*self))
    }
}

/// The views of a run of resolved expressions, in order.
pub open spec fn texpression_views(expressions: Seq<TExpression>) -> Seq<TExpr> {
    Seq::new(expressions.len(), |i: int| expressions[i]@)
}

/// The view of a function is its parameter and the views of its body.
pub proof fn lemma_function_view(f: Function)
    ensures
        f@ == (Expr::Function {
            parameter: f.variable.0,
            body: expression_views(f.expression@),
        }),
{
    assert(f@->body =~= expression_views(f.expression@));
}

/// The view of a resolved function is its parameter and the views of its body.
pub proof fn lemma_tfunction_view(f: TFunction)
    ensures
        f@ == (TExpr::Function {
            parameter: f.variable,
            body: texpression_views(f.expression@),
        }),
{
    assert(f@->body =~= texpression_views(f.expression@));
}

impl Clone for TExpression {
    fn clone(&self) -> (copy: Self)
        ensures
            copy@ == self@,
        decreases self,
    {
        match self {
            TExpression::Function(f) => TExpression::Function(f.clone()),
            TExpression::Variable(v) => TExpression::Variable(*v),
        }
    }
}

impl Clone for TFunction {
    fn clone(&self) -> (copy: Self)
        ensures
            copy@ == self@,
        decreases self,
    {
        let mut body: Vec<TExpression> = Vec::new();
        let mut i: usize = 0;
        while i < self.expression.len()
            invariant
                i <= self.expression.len(),
                body.len() == i,
                forall|j: int| 0 <= j < i ==> body@[j]@ == self.expression@[j]@,
            decreases self.expression.len() - i,
        {
            let item = self.expression[i].clone();
            body.push(item);
            i += 1;
        }
        let copy = TFunction { variable: self.variable, expression: body };
        proof {
            assert(copy@->body =~= self@->body);
        }
        copy
    }
}

} // verus!
