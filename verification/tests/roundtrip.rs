use laplace::lexer::{parse, parse_expression, parse_expressions};
use laplace::registry::{Registry, Scope};
use laplace::token::{tokenize_ast, tokenize_expression};
use laplace::types::{Expression, TExpression};

fn resolved(source: &str) -> (Expression, TExpression) {
    let (rest, expression) = parse_expression(source).unwrap();
    assert_eq!(rest, "");
    let (_, again) = parse_expression(source).unwrap();
    let mut next: u64 = 0;
    let resolved = tokenize_expression(again, &Registry::new(), Scope::new(), &mut next).unwrap();
    (expression, resolved)
}

#[test]
fn what_is_displayed_reads_back() {
    for source in ["a", "λa.a", "\\a.\\b.(a b)", "λa.(λb.(b a) a c)", "λx.xyz"] {
        let (expression, resolved) = resolved(source);
        let text = resolved.display();
        assert_eq!(parse_expression(&text), Ok(("", expression)));
    }
}

#[test]
fn display_writes_the_canonical_form() {
    let (_, resolved) = resolved("\\a.\\b.ab");
    assert_eq!(resolved.display(), "λa.(λb.(a b))");
}

#[test]
fn a_displayed_group_reads_back_as_a_body() {
    let registry = tokenize_ast(parse("let MAIN = \\a.(a \\b.b c)").unwrap()).unwrap();
    let main = registry.get("MAIN").unwrap().clone();
    let text = TExpression::display_expressions(vec![main.clone(), main]);
    assert_eq!(text, "(λa.(a λb.(b) c) λa.(a λb.(b) c))");
    let (rest, body) = parse_expressions(&text).unwrap();
    assert_eq!(rest, "");
    let (_, once) = parse_expression("λa.(a λb.(b) c)").unwrap();
    let (_, twice) = parse_expression("λa.(a λb.(b) c)").unwrap();
    assert_eq!(body, vec![once, twice]);
}
