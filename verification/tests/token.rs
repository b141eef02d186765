use laplace::lexer::parse;
use laplace::registry::{Registry, Scope};
use laplace::token::{tokenize_alias, tokenize_ast, tokenize_expression, ResolveError};
use laplace::types::{
    Alias, AliasLink, Expression, Function, TExpression, TFunction, TVariable, Token, Variable,
};

fn lambda(variable: char, expression: Vec<Expression>) -> Expression {
    Expression::Function(Function { variable: Variable(variable), expression })
}

fn var(letter: char) -> Expression {
    Expression::Variable(Variable(letter))
}

fn link(name: &str) -> Expression {
    Expression::AliasLink(AliasLink(name.to_string()))
}

fn alias(name: &str, expression: Expression) -> Alias {
    Alias { variable: AliasLink(name.to_string()), expression }
}

fn tlambda(letter: char, id: u64, expression: Vec<TExpression>) -> TExpression {
    TExpression::Function(TFunction { variable: TVariable(letter, Token::Bound(id)), expression })
}

fn bound(letter: char, id: u64) -> TExpression {
    TExpression::Variable(TVariable(letter, Token::Bound(id)))
}

fn free(letter: char) -> TExpression {
    TExpression::Variable(TVariable(letter, Token::Free))
}

fn binder_ids(expression: &TExpression, into: &mut Vec<u64>) {
    if let TExpression::Function(function) = expression {
        if let Token::Bound(id) = function.variable.1 {
            into.push(id);
        }
        for inner in &function.expression {
            binder_ids(inner, into);
        }
    }
}

#[test]
fn new_bound_counts_up() {
    let mut next: u64 = 7;
    assert_eq!(Token::new_bound(&mut next), Token::Bound(7));
    assert_eq!(next, 8);
    assert_eq!(Token::new_bound(&mut next), Token::Bound(8));
    assert_eq!(next, 9);
}

#[test]
fn aliases_resolve_in_file_order() {
    let program = parse("let MAIN = \\x.x\nlet TRUE = \\x.\\y.x\n").unwrap();
    let registry = tokenize_ast(program).unwrap();
    assert_eq!(registry.get("MAIN"), Some(&tlambda('x', 0, vec![bound('x', 0)])));
    assert_eq!(
        registry.get("TRUE"),
        Some(&tlambda('x', 1, vec![tlambda('y', 2, vec![bound('x', 1)])]))
    );
    assert!(registry.contains_key("MAIN"));
    assert!(registry.contains_key("TRUE"));
    assert!(!registry.contains_key("FALSE"));
    assert_eq!(registry.get("FALSE"), None);
}

#[test]
fn reference_before_definition_is_not_found() {
    let program = parse("let MAIN = \\x.TRUE\nlet TRUE = \\x.\\y.x\n").unwrap();
    assert_eq!(tokenize_ast(program).err(), Some(ResolveError::AliasNotFound("TRUE".to_string())));
}

#[test]
fn first_missing_reference_is_reported() {
    let program = vec![alias("MAIN", lambda('x', vec![link("B"), var('x'), link("A")]))];
    assert_eq!(tokenize_ast(program).err(), Some(ResolveError::AliasNotFound("B".to_string())));
}

#[test]
fn a_definition_cannot_refer_to_itself() {
    let program = parse("let MAIN = \\x.MAIN").unwrap();
    assert_eq!(tokenize_ast(program).err(), Some(ResolveError::AliasNotFound("MAIN".to_string())));
}

#[test]
fn missing_main_is_an_error() {
    let program = parse("let TRUE = \\x.\\y.x").unwrap();
    assert_eq!(tokenize_ast(program).err(), Some(ResolveError::MissingMain));
    assert_eq!(tokenize_ast(vec![]).err(), Some(ResolveError::MissingMain));
}

#[test]
fn missing_reference_comes_before_missing_main() {
    let program = parse("let TRUE = \\x.FALSE").unwrap();
    assert_eq!(tokenize_ast(program).err(), Some(ResolveError::AliasNotFound("FALSE".to_string())));
}

#[test]
fn unbound_variable_is_free() {
    let registry = Registry::new();
    let mut next: u64 = 0;
    let resolved =
        tokenize_expression(lambda('a', vec![var('b')]), &registry, Scope::new(), &mut next);
    assert_eq!(resolved, Ok(tlambda('a', 0, vec![free('b')])));
    assert_eq!(next, 1);
}

#[test]
fn variable_takes_the_token_in_scope() {
    let registry = Registry::new();
    let mut scope = Scope::new();
    scope.insert('a', Token::Bound(40));
    scope.insert('b', Token::Bound(41));
    scope.insert('a', Token::Bound(42));
    assert_eq!(scope.get('a'), Some(Token::Bound(42)));
    assert_eq!(scope.get('b'), Some(Token::Bound(41)));
    assert_eq!(scope.get('c'), None);
    let mut next: u64 = 50;
    assert_eq!(tokenize_expression(var('a'), &registry, scope.clone(), &mut next), Ok(bound('a', 42)));
    assert_eq!(tokenize_expression(var('c'), &registry, scope, &mut next), Ok(free('c')));
    assert_eq!(next, 50);
}

#[test]
fn inner_binder_shadows_for_its_body_only() {
    // λa.( (λa.a) a ): the inner `a` belongs to the inner binder, the last to the outer.
    let registry = Registry::new();
    let mut next: u64 = 0;
    let source = lambda('a', vec![lambda('a', vec![var('a')]), var('a')]);
    let resolved = tokenize_expression(source, &registry, Scope::new(), &mut next);
    assert_eq!(
        resolved,
        Ok(tlambda('a', 0, vec![tlambda('a', 1, vec![bound('a', 1)]), bound('a', 0)]))
    );
    assert_eq!(next, 2);
}

#[test]
fn siblings_count_on_from_each_other() {
    let registry = Registry::new();
    let mut next: u64 = 10;
    let source = lambda(
        'a',
        vec![
            lambda('b', vec![lambda('c', vec![var('a')])]),
            lambda('d', vec![var('b')]),
        ],
    );
    let resolved = tokenize_expression(source, &registry, Scope::new(), &mut next);
    assert_eq!(
        resolved,
        Ok(tlambda(
            'a',
            10,
            vec![
                tlambda('b', 11, vec![tlambda('c', 12, vec![bound('a', 10)])]),
                tlambda('d', 13, vec![free('b')]),
            ]
        ))
    );
    assert_eq!(next, 14);
}

#[test]
fn references_are_expanded_by_value() {
    let program = parse("let ID = \\x.x\nlet MAIN = \\y.(ID y ID)").unwrap();
    let registry = tokenize_ast(program).unwrap();
    let id = tlambda('x', 0, vec![bound('x', 0)]);
    assert_eq!(registry.get("ID"), Some(&id));
    assert_eq!(
        registry.get("MAIN"),
        Some(&tlambda('y', 1, vec![id.clone(), bound('y', 1), id.clone()]))
    );
}

#[test]
fn expansion_ignores_the_scope_of_the_use_site() {
    // `x` in FREE stays free although the use site binds `x`.
    let program = parse("let FREE = x\nlet MAIN = \\x.FREE").unwrap();
    let registry = tokenize_ast(program).unwrap();
    assert_eq!(registry.get("MAIN"), Some(&tlambda('x', 0, vec![free('x')])));
}

#[test]
fn a_name_defined_again_keeps_the_first_definition() {
    let program = parse("let A = \\x.x\nlet MAIN = A\nlet A = \\y.y\nlet LAST = \\z.z").unwrap();
    let registry = tokenize_ast(program).unwrap();
    assert_eq!(registry.get("A"), Some(&tlambda('x', 0, vec![bound('x', 0)])));
    assert_eq!(registry.get("MAIN"), Some(&tlambda('x', 0, vec![bound('x', 0)])));
    // The second definition of A is resolved, and takes identity 1, but is not stored.
    assert_eq!(registry.get("LAST"), Some(&tlambda('z', 2, vec![bound('z', 2)])));
    assert_eq!(registry.len(), 3);
}

#[test]
fn main_defined_again_keeps_the_first_definition() {
    let program = parse("let MAIN = x\nlet MAIN = y").unwrap();
    let registry = tokenize_ast(program).unwrap();
    assert_eq!(registry.get("MAIN"), Some(&free('x')));
    assert_eq!(registry.len(), 1);
}

#[test]
fn a_missing_reference_in_a_later_definition_of_a_name_is_reported() {
    let program = parse("let MAIN = \\x.x\nlet MAIN = FOO").unwrap();
    assert_eq!(tokenize_ast(program).err(), Some(ResolveError::AliasNotFound("FOO".to_string())));
}

#[test]
fn tokenize_alias_resolves_but_does_not_store_a_name_that_is_defined() {
    let mut registry = Registry::new();
    let mut next: u64 = 0;
    assert_eq!(tokenize_alias(alias("A", var('x')), &mut registry, &mut next), Ok(()));
    assert_eq!(
        tokenize_alias(alias("A", lambda('y', vec![var('y')])), &mut registry, &mut next),
        Ok(())
    );
    assert_eq!(registry.get("A"), Some(&free('x')));
    assert_eq!(next, 1);
    // A reference in it is looked up all the same.
    assert_eq!(
        tokenize_alias(alias("A", lambda('y', vec![link("NONE")])), &mut registry, &mut next),
        Err(ResolveError::AliasNotFound("NONE".to_string()))
    );
    assert_eq!(registry.get("A"), Some(&free('x')));
    assert_eq!(next, 1);
    assert_eq!(registry.len(), 1);
}

#[test]
fn tokenize_alias_stores_under_the_name() {
    let mut registry = Registry::new();
    let mut next: u64 = 0;
    assert_eq!(
        tokenize_alias(alias("ID", lambda('x', vec![var('x')])), &mut registry, &mut next),
        Ok(())
    );
    assert_eq!(next, 1);
    assert_eq!(registry.get("ID"), Some(&tlambda('x', 0, vec![bound('x', 0)])));
    assert_eq!(
        tokenize_alias(alias("TWICE", link("ID")), &mut registry, &mut next),
        Ok(())
    );
    assert_eq!(next, 1);
    assert_eq!(registry.get("TWICE"), Some(&tlambda('x', 0, vec![bound('x', 0)])));
}

#[test]
fn tokenize_alias_leaves_the_registry_on_failure() {
    let mut registry = Registry::new();
    let mut next: u64 = 0;
    let failed = tokenize_alias(
        alias("BAD", lambda('x', vec![lambda('y', vec![var('y')]), link("NONE")])),
        &mut registry,
        &mut next,
    );
    assert_eq!(failed, Err(ResolveError::AliasNotFound("NONE".to_string())));
    assert!(!registry.contains_key("BAD"));
    assert_eq!(next, 0);
}

#[test]
fn registry_insert_never_replaces() {
    let mut registry = Registry::new();
    assert_eq!(registry.get("A"), None);
    assert!(registry.insert("A".to_string(), free('a')));
    assert!(registry.insert("B".to_string(), free('b')));
    assert!(!registry.insert("A".to_string(), free('c')));
    assert_eq!(registry.get("A"), Some(&free('a')));
    assert_eq!(registry.get("B"), Some(&free('b')));
    assert!(!registry.contains_key(""));
}

#[test]
fn registry_counts_and_lists_its_names() {
    let mut registry = Registry::new();
    assert_eq!(registry.len(), 0);
    assert_eq!(registry.names(), Vec::<String>::new());
    registry.insert("B".to_string(), free('b'));
    registry.insert("A".to_string(), free('a'));
    registry.insert("B".to_string(), free('c'));
    assert_eq!(registry.len(), 2);
    assert_eq!(registry.names(), vec!["B".to_string(), "A".to_string()]);
    let program = parse("let TRUE = \\x.\\y.x\nlet MAIN = TRUE\nlet TRUE = a").unwrap();
    let registry = tokenize_ast(program).unwrap();
    assert_eq!(registry.len(), 2);
    assert_eq!(registry.names(), vec!["TRUE".to_string(), "MAIN".to_string()]);
}

#[test]
fn binders_written_in_a_program_have_distinct_tokens() {
    let program = parse(
        "let A = \\x.\\y.(x y)\nlet B = \\x.(x \\x.x)\nlet MAIN = \\a.\\b.\\c.(a (\\d.d) b c)",
    )
    .unwrap();
    let registry = tokenize_ast(program).unwrap();
    let mut ids: Vec<u64> = Vec::new();
    for name in ["A", "B", "MAIN"] {
        binder_ids(registry.get(name).unwrap(), &mut ids);
    }
    assert_eq!(ids, vec![0, 1, 2, 3, 4, 5, 6, 7]);
}

#[test]
fn copied_binders_keep_their_token() {
    let program = parse("let ID = \\x.x\nlet MAIN = \\a.(ID ID)").unwrap();
    let registry = tokenize_ast(program).unwrap();
    let mut ids: Vec<u64> = Vec::new();
    binder_ids(registry.get("MAIN").unwrap(), &mut ids);
    assert_eq!(ids, vec![1, 0, 0]);
}

#[test]
fn tokenizing_again_gives_the_same_registry() {
    let source = "let TRUE = \\x.\\y.x\nlet MAIN = \\z.(TRUE z)";
    let first = tokenize_ast(parse(source).unwrap()).unwrap();
    let second = tokenize_ast(parse(source).unwrap()).unwrap();
    assert_eq!(first.get("MAIN"), second.get("MAIN"));
    assert_eq!(first.get("TRUE"), second.get("TRUE"));
}
