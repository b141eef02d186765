use laplace::eval::{apply_input, evaluate_expression, evaluate_function};
use laplace::lexer::parse;
use laplace::token::tokenize_ast;
use laplace::types::{TExpression, TFunction, TVariable, Token};

fn tfunction(letter: char, id: u64, expression: Vec<TExpression>) -> TFunction {
    TFunction { variable: TVariable(letter, Token::Bound(id)), expression }
}

fn tlambda(letter: char, id: u64, expression: Vec<TExpression>) -> TExpression {
    TExpression::Function(tfunction(letter, id, expression))
}

fn bound(letter: char, id: u64) -> TExpression {
    TExpression::Variable(TVariable(letter, Token::Bound(id)))
}

fn free(letter: char) -> TExpression {
    TExpression::Variable(TVariable(letter, Token::Free))
}

#[test]
fn identity_applied_gives_the_argument() {
    let registry = tokenize_ast(parse("let MAIN = \\x.x\nlet APPLY = \\y.y").unwrap()).unwrap();
    let main = registry.get("MAIN").unwrap().clone();
    let argument = registry.get("APPLY").unwrap().clone();
    assert_eq!(argument, tlambda('y', 1, vec![bound('y', 1)]));
    assert_eq!(evaluate_expression(main, argument.clone()), vec![argument]);
}

#[test]
fn evaluate_function_substitutes_in_each_body_expression() {
    let function = tfunction('x', 0, vec![bound('x', 0), free('y'), bound('x', 0)]);
    assert_eq!(
        evaluate_function(function, free('z')),
        vec![free('z'), free('y'), free('z')]
    );
}

#[test]
fn substitution_goes_by_token_not_by_letter() {
    // Same letter, other binder: untouched. Other letter, same token: replaced.
    let function = tfunction('x', 0, vec![bound('x', 1), bound('q', 0)]);
    assert_eq!(evaluate_function(function, free('z')), vec![bound('x', 1), free('z')]);
}

#[test]
fn substitution_reaches_into_inner_functions_and_keeps_their_binders() {
    let inner = tlambda('y', 1, vec![bound('x', 0), bound('y', 1)]);
    let function = tfunction('x', 0, vec![inner]);
    let argument = tlambda('a', 7, vec![bound('a', 7)]);
    assert_eq!(
        evaluate_function(function, argument.clone()),
        vec![tlambda('y', 1, vec![argument, bound('y', 1)])]
    );
}

#[test]
fn apply_input_replaces_a_matching_variable_whole() {
    let argument = tlambda('a', 7, vec![bound('a', 7)]);
    assert_eq!(apply_input(bound('x', 3), Token::Bound(3), argument.clone()), argument);
    assert_eq!(apply_input(bound('x', 4), Token::Bound(3), argument.clone()), bound('x', 4));
    assert_eq!(apply_input(free('x'), Token::Bound(3), argument), free('x'));
}

#[test]
fn apply_input_does_not_touch_a_binder_with_the_target_token() {
    let expression = tlambda('x', 3, vec![bound('x', 3)]);
    assert_eq!(
        apply_input(expression, Token::Bound(3), free('z')),
        tlambda('x', 3, vec![free('z')])
    );
}

#[test]
fn a_variable_alone_is_not_reduced() {
    assert_eq!(evaluate_expression(bound('x', 0), free('z')), vec![bound('x', 0)]);
    assert_eq!(evaluate_expression(free('x'), free('z')), vec![free('x')]);
}

#[test]
fn free_variables_stay_as_they_are() {
    let registry = tokenize_ast(parse("let MAIN = \\a.(b c \\d.b)").unwrap()).unwrap();
    let main = registry.get("MAIN").unwrap().clone();
    let argument = tlambda('y', 9, vec![bound('y', 9)]);
    assert_eq!(
        evaluate_expression(main, argument),
        vec![free('b'), free('c'), tlambda('d', 1, vec![free('b')])]
    );
}

#[test]
fn one_step_only() {
    // (λx.x x) applied to (λy.y) gives two copies of the argument, not their reduction.
    let function = tfunction('x', 0, vec![bound('x', 0), bound('x', 0)]);
    let argument = tlambda('y', 1, vec![bound('y', 1)]);
    assert_eq!(
        evaluate_function(function, argument.clone()),
        vec![argument.clone(), argument]
    );
}

#[test]
fn empty_body_gives_nothing() {
    assert_eq!(evaluate_function(tfunction('x', 0, vec![]), free('z')), vec![]);
}

#[test]
fn clone_is_a_deep_copy() {
    let expression = tlambda('x', 0, vec![tlambda('y', 1, vec![bound('x', 0)]), free('z')]);
    assert_eq!(expression.clone(), expression);
    let function = tfunction('x', 0, vec![bound('x', 0)]);
    assert_eq!(function.clone(), function);
}
