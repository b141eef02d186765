//! One step of reduction: a function applied to an argument.
//!
//! Evaluation is `λA.B (C)`, where `A` is a placeholder and `B` and `C` are
//! expressions: every occurrence of `A` in `B` becomes `C`. Occurrences are
//! found by token, never by letter.

use crate::types::{texpression_views, TExpr, TExpression, TFunction, Token};
use vstd::prelude::*;

verus! {

/// `e` with `argument` in place of every variable whose token is `target`.
/// Binders are left as they are.
pub open spec fn substitute(e: TExpr, target: Token, argument: TExpr) -> TExpr
    decreases e,
{
    match e {
        TExpr::Function { parameter, body } => TExpr::Function {
            parameter,
            body: substitute_each(body, target, argument),
        },
        TExpr::Variable { variable } => if variable.1 == target {
            argument
        } else {
            e
        },
    }
}

/// [`substitute`] on each expression of `body`, in order.
pub open spec fn substitute_each(body: Seq<TExpr>, target: Token, argument: TExpr) -> Seq<TExpr>
    decreases body,
{
    Seq::new(
        body.len(),
        |i: int|
            if 0 <= i < body.len() {
                substitute(body[i], target, argument)
            } else {
                arbitrary()
            },
    )
}

/// One step of reduction of `e` applied to `argument`: the body of a
/// function after substitution for its parameter's token; a variable alone
/// stays as it is.
pub open spec fn reduce(e: TExpr, argument: TExpr) -> Seq<TExpr> {
    match e {
        TExpr::Function { parameter, body } => substitute_each(body, parameter.1, argument),
        TExpr::Variable { variable } => seq![e],
    }
}

/// Whether some variable in `e` carries the token `target`.
pub open spec fn occurs(e: TExpr, target: Token) -> bool
    decreases e,
{
    match e {
        TExpr::Function { parameter, body } => exists|i: int|
            0 <= i < body.len() && occurs(#[trigger] body[i], target),
        TExpr::Variable { variable } => variable.1 == target,
    }
}

/// Whether every variable in `e` is free.
pub open spec fn only_free(e: TExpr) -> bool
    decreases e,
{
    match e {
        TExpr::Function { parameter, body } => forall|i: int|
            0 <= i < body.len() ==> only_free(#[trigger] body[i]),
        TExpr::Variable { variable } => variable.1 == Token::Free,
    }
}

/// Substitution for a token that no variable of `e` carries changes nothing.
pub proof fn lemma_substitute_absent(e: TExpr, target: Token, argument: TExpr)
    requires
        !occurs(e, target),
    ensures
        substitute(e, target, argument) == e,
    decreases e,
{
    match e {
        TExpr::Function { parameter, body } => {
            assert forall|i: int| 0 <= i < body.len() implies substitute(
                #[trigger] body[i],
                target,
                argument,
            ) == body[i] by {
                lemma_substitute_absent(body[i], target, argument);
            }
            assert(substitute_each(body, target, argument) =~= body);
        },
        TExpr::Variable { variable } => {},
    }
}

/// An expression whose variables are all free holds no bound token.
pub proof fn lemma_only_free_absent(e: TExpr, id: u64)
    requires
        only_free(e),
    ensures
        !occurs(e, Token::Bound(id)),
    decreases e,
{
    match e {
        TExpr::Function { parameter, body } => {
            assert forall|i: int| 0 <= i < body.len() implies !occurs(
                #[trigger] body[i],
                Token::Bound(id),
            ) by {
                lemma_only_free_absent(body[i], id);
            }
        },
        TExpr::Variable { variable } => {},
    }
}

/// Applying a function whose parameter no variable of its body refers to
/// gives the body back unchanged, whatever the argument.
pub proof fn lemma_reduce_unused_parameter(function: TExpr, argument: TExpr)
    requires
        function is Function,
        forall|i: int|
            0 <= i < function->body.len() ==> !occurs(
                #[trigger] function->body[i],
                function->parameter.1,
            ),
    ensures
        reduce(function, argument) == function->body,
{
    let body = function->body;
    assert forall|i: int| 0 <= i < body.len() implies substitute(
        #[trigger] body[i],
        function->parameter.1,
        argument,
    ) == body[i] by {
        lemma_substitute_absent(body[i], function->parameter.1, argument);
    }
    assert(reduce(function, argument) =~= body);
}

/// Applying a function with a bound parameter to any argument leaves a body
/// that holds only free variables unchanged.
pub proof fn lemma_reduce_keeps_free_variables(function: TExpr, argument: TExpr)
    requires
        function is Function,
        function->parameter.1 is Bound,
        forall|i: int| 0 <= i < function->body.len() ==> only_free(#[trigger] function->body[i]),
    ensures
        reduce(function, argument) == function->body,
{
    let body = function->body;
    assert forall|i: int| 0 <= i < body.len() implies !occurs(
        #[trigger] body[i],
        function->parameter.1,
    ) by {
        lemma_only_free_absent(body[i], function->parameter.1->Bound_0);
    }
    lemma_reduce_unused_parameter(function, argument);
}

/// `function` applied to `input`: each expression of its body, with `input`
/// in place of the parameter.
pub fn evaluate_function(function: TFunction, input: TExpression) -> (result: Vec<TExpression>)
    ensures
        texpression_views(result@) == reduce(function@, input@),
{
    let ghost body = function.expression@;
    let token = function.variable.1;
    let mut result: Vec<TExpression> = Vec::new();
    for expression in it: function.expression.into_iter()
        invariant
            it.seq() == body,
            result.len() == it.index(),
            forall|j: int|
                0 <= j < it.index() ==> result@[j]@ == substitute(body[j]@, token, input@),
    {
        let item = apply_input(expression, token, input.clone());
        result.push(item);
    }
    proof {
        assert(texpression_views(result@) =~= reduce(function@, input@));
    }
    result
}

/// One step of reduction of `expr` applied to `input`. A variable alone
/// cannot be reduced and comes back as it is.
pub fn evaluate_expression(expr: TExpression, input: TExpression) -> (result: Vec<TExpression>)
    ensures
        texpression_views(result@) == reduce(expr@, input@),
{
    match expr {
        TExpression::Function(func) => evaluate_function(func, input),
        TExpression::Variable(var) => {
            let mut result: Vec<TExpression> = Vec::new();
            result.push(TExpression::Variable(var));
            proof {
                assert(texpression_views(result@) =~= reduce(expr@, input@));
            }
            result
        },
    }
}

/// `expr` with `input` in place of every variable that carries `token`.
pub fn apply_input(expr: TExpression, token: Token, input: TExpression) -> (result: TExpression)
    ensures
        result@ == substitute(expr@, token, input@),
    decreases expr,
{
    match expr {
        TExpression::Function(func) => {
            let ghost body = func.expression@;
            let mut expression: Vec<TExpression> = Vec::new();
            assert(forall|j: int| 0 <= j < body.len() ==> decreases_to!(expr => #[trigger] body[j]));
            for exp in it: func.expression.into_iter()
                invariant
                    it.seq() == body,
                    forall|j: int| 0 <= j < body.len() ==> decreases_to!(expr => #[trigger] body[j]),
                    expression.len() == it.index(),
                    forall|j: int|
                        0 <= j < it.index() ==> expression@[j]@ == substitute(
                            body[j]@,
                            token,
                            input@,
                        ),
            {
                let item = apply_input(exp, token, input.clone());
                expression.push(item);
            }
            let result = TExpression::Function(TFunction { variable: func.variable, expression });
            proof {
                assert(result@->body =~= substitute_each(expr@->body, token, input@));
            }
            result
        },
        TExpression::Variable(var) => {
            if var.1 == token {
                input
            } else {
                TExpression::Variable(var)
            }
        },
    }
}

} // verus!
