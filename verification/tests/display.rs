use laplace::types::{TExpression, TFunction, TVariable, Token};

fn tfunction(letter: char, id: u64, expression: Vec<TExpression>) -> TFunction {
    TFunction { variable: TVariable(letter, Token::Bound(id)), expression }
}

fn bound(letter: char, id: u64) -> TExpression {
    TExpression::Variable(TVariable(letter, Token::Bound(id)))
}

fn free(letter: char) -> TExpression {
    TExpression::Variable(TVariable(letter, Token::Free))
}

#[test]
fn variable_is_its_letter() {
    assert_eq!(TVariable('a', Token::Free).display(), "a");
    assert_eq!(TVariable('b', Token::Bound(3)).display(), "b");
    assert_eq!(free('c').display(), "c");
}

#[test]
fn function_is_lambda_parameter_dot_and_body_in_parentheses() {
    assert_eq!(tfunction('x', 0, vec![bound('x', 0)]).display(), "λx.(x)");
    assert_eq!(
        tfunction('x', 0, vec![bound('x', 0), free('y'), free('z')]).display(),
        "λx.(x y z)"
    );
    assert_eq!(tfunction('x', 0, vec![]).display(), "λx.()");
}

#[test]
fn nested_functions_nest_their_parentheses() {
    let inner = TExpression::Function(tfunction('y', 1, vec![bound('x', 0), bound('y', 1)]));
    let outer = TExpression::Function(tfunction('x', 0, vec![inner, free('z')]));
    assert_eq!(outer.display(), "λx.(λy.(x y) z)");
}

#[test]
fn expressions_are_a_group_separated_by_spaces() {
    assert_eq!(TExpression::display_expressions(vec![]), "()");
    assert_eq!(TExpression::display_expressions(vec![free('a')]), "(a)");
    let function = TExpression::Function(tfunction('x', 0, vec![bound('x', 0)]));
    assert_eq!(
        TExpression::display_expressions(vec![free('a'), function, free('b')]),
        "(a λx.(x) b)"
    );
}
