use laplace::grammar::{Expected, Rule};
use laplace::lexer::{
    parse, parse_alias, parse_alias_link, parse_expression, parse_expressions, parse_file,
    parse_function, parse_variable, ParseError,
};
use laplace::types::{Alias, AliasLink, Expression, Function, Variable};

fn f(variable: char, expression: Vec<Expression>) -> Expression {
    Expression::Function(function(variable, expression))
}

fn function(variable: char, expression: Vec<Expression>) -> Function {
    Function { variable: Variable(variable), expression }
}

fn v(variable: char) -> Expression {
    Expression::Variable(Variable(variable))
}

fn a(alias: &str) -> Expression {
    Expression::AliasLink(AliasLink(alias.to_string()))
}

fn failure(offset: usize, expected: Expected, trace: Vec<Rule>) -> ParseError {
    ParseError { offset, expected, trace }
}

#[test]
fn test_parse_variable_pass() {
    let data = "ab";
    let expected = Variable('a');
    let (rest, result) = parse_variable(data).unwrap();
    assert_eq!(result, expected);
    assert_eq!(rest, "b");
}

#[test]
fn test_parse_variable_fail_1() {
    let data = " b";
    let result = parse_variable(data);
    assert!(result.is_err());
}

#[test]
fn test_parse_variable_fail_2() {
    let data = "\\b";
    let result = parse_variable(data);
    assert!(result.is_err());
}

#[test]
fn test_parse_variable_fail_3() {
    let data = "1b";
    let result = parse_variable(data);
    assert!(result.is_err());
}

#[test]
fn test_parse_lambda_pass_1() {
    let data = "λa.b";
    let expected = function('a', vec![v('b')]);
    let (rest, result) = parse_function(data).unwrap();
    assert_eq!(result, expected);
    assert_eq!(rest, "");
}

#[test]
fn test_parse_lambda_pass_2() {
    let data = "\\a.b";
    let expected = function('a', vec![v('b')]);
    let (rest, result) = parse_function(data).unwrap();
    assert_eq!(result, expected);
    assert_eq!(rest, "");
}

#[test]
fn test_parse_lambda_pass_3() {
    let data = "λa.(b)";
    let expected = function('a', vec![v('b')]);
    let (rest, result) = parse_function(data).unwrap();
    assert_eq!(result, expected);
    assert_eq!(rest, "");
}

#[test]
fn test_parse_lambda_pass_4() {
    let data = "λa.bc";
    let expected = function('a', vec![v('b'), v('c')]);
    let (rest, result) = parse_function(data).unwrap();
    assert_eq!(result, expected);
    assert_eq!(rest, "");
}

#[test]
fn test_parse_lambda_pass_5() {
    let data = "λa.(bc)";

    let expected = function('a', vec![v('b'), v('c')]);

    let (rest, result) = parse_function(data).unwrap();
    assert_eq!(result, expected);
    assert_eq!(rest, "");
}

#[test]
fn test_parse_lambda_pass_6() {
    let data = "λa.b(c)";
    let expected = function('a', vec![v('b'), v('c')]);
    let (rest, result) = parse_function(data).unwrap();
    assert_eq!(result, expected);
    assert_eq!(rest, "");
}

#[test]
fn test_parse_lambda_pass_7() {
    let data = "λa.(b(c))";
    let expected = function('a', vec![v('b'), v('c')]);
    let (rest, result) = parse_function(data).unwrap();
    assert_eq!(result, expected);
    assert_eq!(rest, "");
}

#[test]
fn test_parse_lambda_pass_8() {
    let data = "λa.(b)c";
    let expected = function('a', vec![v('b')]);
    let (rest, result) = parse_function(data).unwrap();
    assert_eq!(result, expected);
    assert_eq!(rest, "c");
}

#[test]
fn test_parse_lambda_fail_1() {
    let data = "a";
    let result = parse_function(data);
    assert!(result.is_err());
}

#[test]
fn test_parse_lambda_fail_2() {
    let data = "λa.";
    let result = parse_function(data);
    assert!(result.is_err());
}

#[test]
fn test_parse_lambda_fail_3() {
    let data = "λa.()b";
    let result = parse_function(data);
    assert!(result.is_err());
}

#[test]
fn test_parse_alias_link_pass_1() {
    let data = "\\a.A";
    let expected = function('a', vec![a("A")]);
    let (rest, result) = parse_function(data).unwrap();
    assert_eq!(result, expected);
    assert_eq!(rest, "");
}

#[test]
fn test_parse_file_pass_1() {
    let file = "let MAIN = \\x.x\nlet TRUE = \\x.\\y.x\n";

    let expected = vec![
        Alias::from_tuple((AliasLink("MAIN".to_string()), f('x', vec![v('x')]))),
        Alias::from_tuple((AliasLink("TRUE".to_string()), f('x', vec![f('y', vec![v('x')])]))),
    ];

    let (_rest, result) = parse_file(file).unwrap();

    assert_eq!(result, expected);
}

#[test]
fn variable_failure_names_the_rule_and_the_place() {
    assert_eq!(
        parse_variable("1b"),
        Err(failure(0, Expected::Variable, vec![Rule::Variable]))
    );
    assert_eq!(parse_variable(""), Err(failure(0, Expected::Variable, vec![Rule::Variable])));
    assert_eq!(parse_variable("A"), Err(failure(0, Expected::Variable, vec![Rule::Variable])));
    assert_eq!(parse_variable("é"), Err(failure(0, Expected::Variable, vec![Rule::Variable])));
}

#[test]
fn variable_takes_one_letter_only() {
    assert_eq!(parse_variable("z"), Ok(("", Variable('z'))));
    assert_eq!(parse_variable("a b"), Ok((" b", Variable('a'))));
}

#[test]
fn alias_link_takes_the_longest_uppercase_run() {
    assert_eq!(parse_alias_link("TRUE"), Ok(("", AliasLink("TRUE".to_string()))));
    assert_eq!(parse_alias_link("ABc"), Ok(("c", AliasLink("AB".to_string()))));
    assert_eq!(parse_alias_link("A B"), Ok((" B", AliasLink("A".to_string()))));
    assert_eq!(
        parse_alias_link("a"),
        Err(failure(0, Expected::AliasLink, vec![Rule::AliasLink]))
    );
    assert_eq!(
        parse_alias_link(""),
        Err(failure(0, Expected::AliasLink, vec![Rule::AliasLink]))
    );
}

#[test]
fn function_failures_say_what_was_missing() {
    assert_eq!(
        parse_function("a"),
        Err(failure(0, Expected::Lambda, vec![Rule::Function]))
    );
    assert_eq!(
        parse_function("λ1.b"),
        Err(failure(1, Expected::Variable, vec![Rule::Variable, Rule::Function]))
    );
    assert_eq!(parse_function("λa b"), Err(failure(2, Expected::Dot, vec![Rule::Function])));
    assert_eq!(
        parse_function("λa."),
        Err(failure(
            3,
            Expected::Variable,
            vec![Rule::Variable, Rule::Expression, Rule::Expressions, Rule::Function]
        ))
    );
    assert_eq!(
        parse_function("λa.()b"),
        Err(failure(
            3,
            Expected::Variable,
            vec![Rule::Variable, Rule::Expression, Rule::Expressions, Rule::Function]
        ))
    );
}

#[test]
fn offsets_count_characters_not_bytes() {
    assert_eq!(
        parse_function("λa.λb"),
        Err(failure(
            3,
            Expected::Variable,
            vec![Rule::Variable, Rule::Expression, Rule::Expressions, Rule::Function]
        ))
    );
    assert_eq!(parse_function("λλ"), Err(failure(1, Expected::Variable, vec![
        Rule::Variable,
        Rule::Function
    ])));
}

#[test]
fn empty_parenthesized_body_fails() {
    assert!(parse_function("λa.()").is_err());
    assert!(parse_expressions("()").is_err());
}

#[test]
fn nested_functions_take_the_rest_as_body() {
    let (rest, result) = parse_function("λa.λb.ab").unwrap();
    assert_eq!(result, function('a', vec![f('b', vec![v('a'), v('b')])]));
    assert_eq!(rest, "");
}

#[test]
fn parenthesized_body_ends_the_function() {
    let (rest, result) = parse_function("λa.(λb.a)(c)").unwrap();
    assert_eq!(result, function('a', vec![f('b', vec![v('a')])]));
    assert_eq!(rest, "(c)");
}

#[test]
fn spaces_are_allowed_inside_a_parenthesized_body_only() {
    let (rest, result) = parse_function("λa.( b  c\t)").unwrap();
    assert_eq!(result, function('a', vec![v('b'), v('c')]));
    assert_eq!(rest, "");

    let (rest, result) = parse_function("λa.b c").unwrap();
    assert_eq!(result, function('a', vec![v('b')]));
    assert_eq!(rest, " c");

    let (rest, result) = parse_function("λa.( ( b ) (c) )").unwrap();
    assert_eq!(result, function('a', vec![v('b'), v('c')]));
    assert_eq!(rest, "");
}

#[test]
fn adjacent_uppercase_letters_are_one_reference() {
    let (rest, result) = parse_function("λa.AB").unwrap();
    assert_eq!(result, function('a', vec![a("AB")]));
    assert_eq!(rest, "");

    let (rest, result) = parse_function("λa.(A B)").unwrap();
    assert_eq!(result, function('a', vec![a("A"), a("B")]));
    assert_eq!(rest, "");
}

#[test]
fn expression_may_be_wrapped_once_without_spaces() {
    assert_eq!(parse_expression("(a)b"), Ok(("b", v('a'))));
    assert_eq!(parse_expression("a"), Ok(("", v('a'))));
    assert_eq!(parse_expression("(TRUE)"), Ok(("", a("TRUE"))));
    assert_eq!(
        parse_expression("( a )"),
        Err(failure(0, Expected::Variable, vec![Rule::Variable, Rule::Expression]))
    );
    assert_eq!(
        parse_expression("((a))"),
        Err(failure(0, Expected::Variable, vec![Rule::Variable, Rule::Expression]))
    );
}

#[test]
fn expressions_reads_one_or_more() {
    assert_eq!(parse_expressions("abc"), Ok(("", vec![v('a'), v('b'), v('c')])));
    assert_eq!(parse_expressions("(a b)c"), Ok(("c", vec![v('a'), v('b')])));
    assert_eq!(parse_expressions("((a))"), Ok(("", vec![v('a')])));
    assert_eq!(parse_expressions("(a"), Err(failure(
        0,
        Expected::Variable,
        vec![Rule::Variable, Rule::Expression, Rule::Expressions]
    )));
    assert_eq!(parse_expressions(""), Err(failure(
        0,
        Expected::Variable,
        vec![Rule::Variable, Rule::Expression, Rule::Expressions]
    )));
}

#[test]
fn alias_reads_name_and_expression_with_spaces_around() {
    let (rest, result) = parse_alias("  let   ID=\\x.x  let").unwrap();
    assert_eq!(
        result,
        Alias { variable: AliasLink("ID".to_string()), expression: f('x', vec![v('x')]) }
    );
    assert_eq!(rest, "let");
}

#[test]
fn alias_failures_say_what_was_missing() {
    assert_eq!(parse_alias("x"), Err(failure(0, Expected::Let, vec![Rule::Alias])));
    assert_eq!(parse_alias(" letA = a"), Err(failure(1, Expected::Let, vec![Rule::Alias])));
    assert_eq!(
        parse_alias("let a = a"),
        Err(failure(4, Expected::AliasLink, vec![Rule::AliasLink, Rule::Alias]))
    );
    assert_eq!(parse_alias("let A a"), Err(failure(6, Expected::Equals, vec![Rule::Alias])));
    assert_eq!(
        parse_alias("let A = "),
        Err(failure(8, Expected::Variable, vec![Rule::Variable, Rule::Expression, Rule::Alias]))
    );
}

#[test]
fn file_leaves_what_is_no_definition() {
    assert_eq!(parse_file(""), Ok(("", vec![])));
    assert_eq!(parse_file("  \n"), Ok(("", vec![])));
    let (rest, result) = parse_file("let A = a\nnonsense").unwrap();
    assert_eq!(result, vec![Alias { variable: AliasLink("A".to_string()), expression: v('a') }]);
    assert_eq!(rest, "nonsense");
}

#[test]
fn parse_reads_a_whole_program() {
    let result = parse("\nlet MAIN = \\x.x\n\n  let TRUE = λx.λy.x\n").unwrap();
    assert_eq!(
        result,
        vec![
            Alias { variable: AliasLink("MAIN".to_string()), expression: f('x', vec![v('x')]) },
            Alias {
                variable: AliasLink("TRUE".to_string()),
                expression: f('x', vec![f('y', vec![v('x')])]),
            },
        ]
    );
}

#[test]
fn parse_of_nothing_is_no_definition() {
    assert_eq!(parse(""), Ok(vec![]));
    assert_eq!(parse(" \t\r\n"), Ok(vec![]));
}

#[test]
fn parse_refuses_what_is_left_over() {
    assert_eq!(
        parse("let A = a b"),
        Err(failure(10, Expected::Let, vec![Rule::Alias, Rule::File]))
    );
    assert_eq!(
        parse("let MAIN = \\x.x\nlet B = "),
        Err(failure(
            24,
            Expected::Variable,
            vec![Rule::Variable, Rule::Expression, Rule::Alias, Rule::File]
        ))
    );
    assert_eq!(parse("λa.b"), Err(failure(0, Expected::Let, vec![Rule::Alias, Rule::File])));
}

#[test]
fn a_definition_takes_one_expression() {
    // The body of a function reads on; the expression of a definition does not.
    let result = parse("let MAIN = \\x.x y").unwrap_err();
    assert_eq!(result, failure(16, Expected::Let, vec![Rule::Alias, Rule::File]));
    let result = parse("let MAIN = \\x.(x y)").unwrap();
    assert_eq!(
        result,
        vec![Alias {
            variable: AliasLink("MAIN".to_string()),
            expression: f('x', vec![v('x'), v('y')]),
        }]
    );
}

#[test]
fn body_between_parentheses_with_a_space() {
    let (rest, result) = parse_function("λa.(b c)").unwrap();
    assert_eq!(result, function('a', vec![v('b'), v('c')]));
    assert_eq!(rest, "");
}

#[test]
fn from_tuple_puts_the_parts_in_place() {
    assert_eq!(
        Function::from_tuple((Variable('a'), vec![v('b')])),
        Function { variable: Variable('a'), expression: vec![v('b')] }
    );
    assert_eq!(
        Alias::from_tuple((AliasLink("A".to_string()), v('b'))),
        Alias { variable: AliasLink("A".to_string()), expression: v('b') }
    );
}

#[test]
fn tabs_and_line_ends_are_spaces() {
    let result = parse("\r\n\tlet\tA\t=\r\na\n").unwrap_err();
    // `let` must be followed by a space itself.
    assert_eq!(result, failure(3, Expected::Let, vec![Rule::Alias, Rule::File]));
    let result = parse("\r\n\tlet \tA\t=\r\na\n").unwrap();
    assert_eq!(result, vec![Alias { variable: AliasLink("A".to_string()), expression: v('a') }]);
}
