//! Resolution: alias references are replaced by what they stand for, and
//! every variable is tagged with the identity of the binder it refers to.
//!
//! Identities come from a counter that the caller owns. Each binder takes the
//! counter's value and advances it, so no two binders of one program share
//! an identity, and the result is the same on every run.
//!
//! What a name stands for is settled by its first definition and never
//! changes: a later definition of the same name is resolved like any other,
//! and its references must be found, but it is not stored.

use crate::registry::{Registry, Scope};
use crate::types::{
    alias_views, expression_views, lemma_function_view, texpression_views, Alias, Definition,
    Expr, Expression, TExpr, TExpression, TFunction, TVariable, Token,
};
use vstd::prelude::*;

verus! {

/// Why a program could not be resolved.
#[derive(Debug, PartialEq, Eq)]
pub enum ResolveError {
    /// A reference to a name that no earlier definition gives.
    AliasNotFound(String),
    /// No definition is named `MAIN`.
    MissingMain,
}

/// The mathematical value of a [`ResolveError`].
pub enum Unresolved {
    AliasNotFound { name: Seq<char> },
    MissingMain,
}

impl View for ResolveError {
    type V = Unresolved;

    open spec fn view(&self) -> Unresolved {
        match self {
            ResolveError::AliasNotFound(name) => Unresolved::AliasNotFound { name: name@ },
            ResolveError::MissingMain => Unresolved::MissingMain,
        }
    }
}

/// The number of binders written in `e`.
pub open spec fn binders(e: Expr) -> nat
    decreases e,
{
    match e {
        Expr::Function { parameter, body } => 1 + binders_each(body),
        Expr::Variable { letter } => 0,
        Expr::AliasLink { name } => 0,
    }
}

/// The number of binders written in the expressions of `body`.
pub open spec fn binders_each(body: Seq<Expr>) -> nat
    decreases body,
{
    if body.len() == 0 {
        0
    } else {
        binders_each(body.drop_last()) + binders(body.last())
    }
}

/// `e` resolved against `registry`, with the letters of `scope` bound, where
/// `next` is the first unused identity.
///
/// A function takes `next` for its parameter and binds the parameter's letter
/// to it for its body, over any outer binding of that letter. A variable
/// takes the token its letter is bound to, or is free. A reference becomes
/// what the registry holds for its name. The first reference, from the left,
/// to a name that the registry lacks is the failure.
pub open spec fn resolve(
    e: Expr,
    registry: Map<Seq<char>, TExpr>,
    scope: Map<char, Token>,
    next: nat,
) -> Result<TExpr, Unresolved>
    decreases e,
{
    match e {
        Expr::Function { parameter, body } => {
            let token = Token::Bound(next as u64);
            match resolve_each(body, registry, scope.insert(parameter, token), next + 1) {
                Ok(resolved) => Ok(
                    TExpr::Function { parameter: TVariable(parameter, token), body: resolved },
                ),
                Err(failure) => Err(failure),
            }
        },
        Expr::Variable { letter } => Ok(
            TExpr::Variable {
                variable: TVariable(
                    letter,
                    if scope.contains_key(letter) {
                        scope[letter]
                    } else {
                        Token::Free
                    },
                ),
            },
        ),
        Expr::AliasLink { name } => if registry.contains_key(name) {
            Ok(registry[name])
        } else {
            Err(Unresolved::AliasNotFound { name })
        },
    }
}

/// The expressions of `body` resolved from left to right, each starting at
/// the identity where the one before it stopped.
pub open spec fn resolve_each(
    body: Seq<Expr>,
    registry: Map<Seq<char>, TExpr>,
    scope: Map<char, Token>,
    next: nat,
) -> Result<Seq<TExpr>, Unresolved>
    decreases body,
{
    if body.len() == 0 {
        Ok(Seq::empty())
    } else {
        match resolve_each(body.drop_last(), registry, scope, next) {
            Err(failure) => Err(failure),
            Ok(front) => match resolve(
                body.last(),
                registry,
                scope,
                next + binders_each(body.drop_last()),
            ) {
                Err(failure) => Err(failure),
                Ok(last) => Ok(front.push(last)),
            },
        }
    }
}

/// The registry after `definition`. Its expression is resolved in the empty
/// scope, and a failure to resolve it is the failure. Where it resolves, it
/// is stored under its name, unless the name is defined already: then the
/// name keeps what it stands for and the registry stays as it is.
pub open spec fn resolve_alias(
    definition: Definition,
    registry: Map<Seq<char>, TExpr>,
    next: nat,
) -> Result<Map<Seq<char>, TExpr>, Unresolved> {
    match resolve(definition.expression, registry, Map::empty(), next) {
        Err(failure) => Err(failure),
        Ok(resolved) => Ok(
            if registry.contains_key(definition.name) {
                registry
            } else {
                registry.insert(definition.name, resolved)
            },
        ),
    }
}

/// The number of binders written in `definitions`.
pub open spec fn total_binders(definitions: Seq<Definition>) -> nat
    decreases definitions.len(),
{
    if definitions.len() == 0 {
        0
    } else {
        total_binders(definitions.drop_last()) + binders(definitions.last().expression)
    }
}

/// The registry after `definitions`, taken in order from the empty registry
/// and identity 0. A definition sees those before it, not those after, and
/// starts at the identity where the one before it stopped.
pub open spec fn resolve_all(definitions: Seq<Definition>) -> Result<
    Map<Seq<char>, TExpr>,
    Unresolved,
>
    decreases definitions.len(),
{
    if definitions.len() == 0 {
        Ok(Map::empty())
    } else {
        match resolve_all(definitions.drop_last()) {
            Err(failure) => Err(failure),
            Ok(registry) => resolve_alias(
                definitions.last(),
                registry,
                total_binders(definitions.drop_last()),
            ),
        }
    }
}

/// A program resolves to the registry of its definitions if one of them is
/// named `MAIN`.
pub open spec fn resolve_program(definitions: Seq<Definition>) -> Result<
    Map<Seq<char>, TExpr>,
    Unresolved,
> {
    match resolve_all(definitions) {
        Err(failure) => Err(failure),
        Ok(registry) => if registry.contains_key("MAIN"@) {
            Ok(registry)
        } else {
            Err(Unresolved::MissingMain)
        },
    }
}

/// The value of an outcome of [`tokenize_expression`].
pub open spec fn expression_outcome(result: Result<TExpression, ResolveError>) -> Result<
    TExpr,
    Unresolved,
> {
    match result {
        Ok(resolved) => Ok(resolved@),
        Err(error) => Err(error@),
    }
}

/// Resolves `input`. `next` is the first unused identity and is left at the
/// next unused one; on failure, where nothing is kept, it is left where it
/// was.
pub fn tokenize_expression(
    input: Expression,
    registry: &Registry,
    token_registry: Scope,
    next: &mut u64,
) -> (result: Result<TExpression, ResolveError>)
    requires
        registry.wf(),
        token_registry.wf(),
        *old(next) + binders(input@) <= u64::MAX,
    ensures
        expression_outcome(result) == resolve(
            input@,
            registry@,
            token_registry@,
            *old(next) as nat,
        ),
        result is Ok ==> *final(next) == *old(next) + binders(input@),
        result is Err ==> *final(next) == *old(next),
    decreases input,
{
    match input {
        Expression::Function(fun) => {
            let ghost body = fun.expression@;
            let ghost items = expression_views(body);
            let first: u64 = *next;
            let ghost start = first as nat;
            proof {
                lemma_function_view(fun);
            }
            let variable = TVariable(fun.variable.0, Token::new_bound(next));
            let mut new_token_registry = token_registry;
            new_token_registry.insert(fun.variable.0, variable.1);
            let mut expression: Vec<TExpression> = Vec::new();
            assert(forall|j: int| 0 <= j < body.len() ==> decreases_to!(input => #[trigger] body[j]));
            assert(items.take(0) =~= Seq::<Expr>::empty());
            assert(texpression_views(expression@) =~= Seq::<TExpr>::empty());
            let ghost parameter = fun.variable.0;
            let ghost scope = new_token_registry@;
            for exp in it: fun.expression.into_iter()
                invariant
                    it.seq() == body,
                    items == expression_views(body),
                    forall|j: int|
                        0 <= j < body.len() ==> decreases_to!(input => #[trigger] body[j]),
                    registry.wf(),
                    new_token_registry.wf(),
                    new_token_registry@ == scope,
                    scope == token_registry@.insert(parameter, Token::Bound(start as u64)),
                    input@ == (Expr::Function { parameter, body: items }),
                    start == *old(next),
                    start == first,
                    start + 1 + binders_each(items) <= u64::MAX,
                    *next == start + 1 + binders_each(items.take(it.index() as int)),
                    resolve_each(
                        items.take(it.index() as int),
                        registry@,
                        scope,
                        start + 1,
                    ) == Ok::<Seq<TExpr>, Unresolved>(texpression_views(expression@)),
            {
                let ghost i = it.index() as int;
                proof {
                    assert(items.take(i + 1).drop_last() =~= items.take(i));
                    assert(items.take(i + 1).last() == exp@);
                    lemma_binders_each_prefix(items, i + 1);
                }
                match tokenize_expression(exp, registry, new_token_registry.clone(), next) {
                    Ok(resolved) => {
                        proof {
                            assert(texpression_views(expression@.push(resolved))
                                =~= texpression_views(expression@).push(resolved@));
                        }
                        expression.push(resolved);
                    },
                    Err(error) => {
                        proof {
                            lemma_resolve_each_fails(
                                items,
                                registry@,
                                scope,
                                start + 1,
                                i + 1,
                            );
                        }
                        *next = first;
                        return Err(error);
                    },
                }
            }
            proof {
                assert(items.take(items.len() as int) =~= items);
            }
            let result = TExpression::Function(TFunction { variable, expression });
            proof {
                assert(result@->body =~= texpression_views(expression@));
            }
            Ok(result)
        },
        Expression::Variable(var) => {
            match token_registry.get(var.0) {
                Some(token) => Ok(TExpression::Variable(TVariable(var.0, token))),
                None => Ok(TExpression::Variable(TVariable(var.0, Token::Free))),
            }
        },
        Expression::AliasLink(alias) => {
            match registry.get(alias.0.as_str()) {
                Some(resolved) => Ok(resolved.clone()),
                None => Err(ResolveError::AliasNotFound(alias.0)),
            }
        },
    }
}

/// The value of an outcome of [`tokenize_ast`].
pub open spec fn registry_outcome(result: Result<Registry, ResolveError>) -> Result<
    Map<Seq<char>, TExpr>,
    Unresolved,
> {
    match result {
        Ok(registry) => Ok(registry@),
        Err(error) => Err(error@),
    }
}

/// Resolves one definition against those before it and stores it under its
/// name. A name that is defined already keeps what it stands for: the
/// definition is resolved all the same, and fails where a reference in it
/// cannot be found, but the registry is left as it is. On failure registry
/// and counter are as they were.
pub fn tokenize_alias(input: Alias, registry: &mut Registry, next: &mut u64) -> (result: Result<
    (),
    ResolveError,
>)
    requires
        old(registry).wf(),
        *old(next) + binders(input@.expression) <= u64::MAX,
    ensures
        final(registry).wf(),
        match result {
            Ok(_) => resolve_alias(input@, old(registry)@, *old(next) as nat) == Ok::<
                Map<Seq<char>, TExpr>,
                Unresolved,
            >(final(registry)@),
            Err(error) => resolve_alias(input@, old(registry)@, *old(next) as nat) == Err::<
                Map<Seq<char>, TExpr>,
                Unresolved,
            >(error@) && final(registry)@ == old(registry)@,
        },
        result is Ok ==> *final(next) == *old(next) + binders(input@.expression),
        result is Err ==> *final(next) == *old(next),
        old(registry)@.contains_key(input@.name) && result is Ok ==> final(registry)@ == old(
            registry)@,
        forall|name: Seq<char>| #[trigger]
            old(registry)@.contains_key(name) ==> final(registry)@.contains_key(name)
                && final(registry)@[name] == old(registry)@[name],
{
    let name = input.variable.0;
    let token_registry = Scope::new();
    match tokenize_expression(input.expression, registry, token_registry, next) {
        Ok(expression) => {
            registry.insert(name, expression);
            Ok(())
        },
        Err(error) => Err(error),
    }
}

/// Resolves a program: its definitions in order, from identity 0. The
/// program must define `MAIN`. Where a name is defined more than once, the
/// first definition stands.
pub fn tokenize_ast(input: Vec<Alias>) -> (result: Result<Registry, ResolveError>)
    requires
        total_binders(alias_views(input@)) <= u64::MAX,
    ensures
        registry_outcome(result) == resolve_program(alias_views(input@)),
        result matches Ok(registry) ==> registry.wf(),
{
    let ghost aliases = input@;
    let ghost definitions = alias_views(aliases);
    let mut registry = Registry::new();
    let mut next: u64 = 0;
    proof {
        assert(definitions.take(0) =~= Seq::<Definition>::empty());
    }
    for alias in it: input.into_iter()
        invariant
            it.seq() == aliases,
            definitions == alias_views(aliases),
            registry.wf(),
            total_binders(definitions) <= u64::MAX,
            next == total_binders(definitions.take(it.index() as int)),
            resolve_all(definitions.take(it.index() as int)) == Ok::<
                Map<Seq<char>, TExpr>,
                Unresolved,
            >(registry@),
    {
        let ghost i = it.index() as int;
        proof {
            assert(definitions.take(i + 1).drop_last() =~= definitions.take(i));
            assert(definitions.take(i + 1).last() == alias@);
            lemma_total_binders_prefix(definitions, i + 1);
        }
        match tokenize_alias(alias, &mut registry, &mut next) {
            Ok(_) => {},
            Err(error) => {
                proof {
                    lemma_resolve_all_fails(definitions, i + 1);
                }
                return Err(error);
            },
        }
    }
    proof {
        assert(definitions.take(definitions.len() as int) =~= definitions);
    }
    if !registry.contains_key("MAIN") {
        return Err(ResolveError::MissingMain);
    }
    Ok(registry)
}

/// The binders of a prefix of a program are no more than those of the whole.
pub proof fn lemma_total_binders_prefix(definitions: Seq<Definition>, n: int)
    requires
        0 <= n <= definitions.len(),
    ensures
        total_binders(definitions.take(n)) <= total_binders(definitions),
    decreases definitions.len(),
{
    if n == definitions.len() {
        assert(definitions.take(n) =~= definitions);
    } else {
        assert(definitions.drop_last().take(n) =~= definitions.take(n));
        lemma_total_binders_prefix(definitions.drop_last(), n);
    }
}

/// A failure within a prefix of a program is the failure of the whole.
pub proof fn lemma_resolve_all_fails(definitions: Seq<Definition>, n: int)
    requires
        0 <= n <= definitions.len(),
        resolve_all(definitions.take(n)) is Err,
    ensures
        resolve_all(definitions) == resolve_all(definitions.take(n)),
    decreases definitions.len(),
{
    if n == definitions.len() {
        assert(definitions.take(n) =~= definitions);
    } else {
        assert(definitions.drop_last().take(n) =~= definitions.take(n));
        lemma_resolve_all_fails(definitions.drop_last(), n);
    }
}

/// The binders of a prefix are no more than those of the whole.
pub proof fn lemma_binders_each_prefix(body: Seq<Expr>, n: int)
    requires
        0 <= n <= body.len(),
    ensures
        binders_each(body.take(n)) <= binders_each(body),
    decreases body.len(),
{
    if n == body.len() {
        assert(body.take(n) =~= body);
    } else {
        assert(body.drop_last().take(n) =~= body.take(n));
        lemma_binders_each_prefix(body.drop_last(), n);
    }
}

/// A failure within a prefix is the failure of the whole.
pub proof fn lemma_resolve_each_fails(
    body: Seq<Expr>,
    registry: Map<Seq<char>, TExpr>,
    scope: Map<char, Token>,
    next: nat,
    n: int,
)
    requires
        0 <= n <= body.len(),
        resolve_each(body.take(n), registry, scope, next) is Err,
    ensures
        resolve_each(body, registry, scope, next) == resolve_each(
            body.take(n),
            registry,
            scope,
            next,
        ),
    decreases body.len(),
{
    if n == body.len() {
        assert(body.take(n) =~= body);
    } else {
        assert(body.drop_last().take(n) =~= body.take(n));
        lemma_resolve_each_fails(body.drop_last(), registry, scope, next, n);
    }
}

/// Whether every reference in `e` is to one of `names`.
pub open spec fn links_defined(e: Expr, names: Set<Seq<char>>) -> bool
    decreases e,
{
    match e {
        Expr::Function { parameter, body } => forall|i: int|
            0 <= i < body.len() ==> links_defined(#[trigger] body[i], names),
        Expr::Variable { letter } => true,
        Expr::AliasLink { name } => names.contains(name),
    }
}

/// The names that `definitions` define.
pub open spec fn defined_names(definitions: Seq<Definition>) -> Set<Seq<char>> {
    Set::new(
        |name: Seq<char>|
            exists|k: int| 0 <= k < definitions.len() && (#[trigger] definitions[k]).name == name,
    )
}

/// An expression resolves exactly when every reference in it is to a name
/// that the registry defines.
pub proof fn lemma_resolve_succeeds(
    e: Expr,
    registry: Map<Seq<char>, TExpr>,
    scope: Map<char, Token>,
    next: nat,
)
    ensures
        resolve(e, registry, scope, next) is Ok <==> links_defined(e, registry.dom()),
    decreases e,
{
    match e {
        Expr::Function { parameter, body } => {
            let inner = scope.insert(parameter, Token::Bound(next as u64));
            lemma_resolve_each_succeeds(body, registry, inner, next + 1);
        },
        Expr::Variable { letter } => {},
        Expr::AliasLink { name } => {},
    }
}

/// [`lemma_resolve_succeeds`] for a run of expressions.
pub proof fn lemma_resolve_each_succeeds(
    body: Seq<Expr>,
    registry: Map<Seq<char>, TExpr>,
    scope: Map<char, Token>,
    next: nat,
)
    ensures
        resolve_each(body, registry, scope, next) is Ok <==> forall|i: int|
            0 <= i < body.len() ==> links_defined(#[trigger] body[i], registry.dom()),
    decreases body,
{
    if body.len() > 0 {
        let front = body.drop_last();
        lemma_resolve_each_succeeds(front, registry, scope, next);
        lemma_resolve_succeeds(body.last(), registry, scope, next + binders_each(front));
        if resolve_each(body, registry, scope, next) is Ok {
            assert forall|i: int| 0 <= i < body.len() implies links_defined(
                #[trigger] body[i],
                registry.dom(),
            ) by {
                if i < front.len() {
                    assert(front[i] == body[i]);
                }
            }
        } else if resolve_each(front, registry, scope, next) is Err {
            let i = choose|i: int|
                0 <= i < front.len() && !links_defined(#[trigger] front[i], registry.dom());
            assert(front[i] == body[i]);
        } else {
            assert(!links_defined(body[body.len() - 1], registry.dom()));
        }
    }
}

/// The definitions of a program resolve exactly when every reference in each
/// of them is to a name that an earlier definition defines; the registry
/// then defines the names of the program and no others.
pub proof fn lemma_resolve_all_succeeds(definitions: Seq<Definition>)
    ensures
        resolve_all(definitions) is Ok <==> forall|k: int|
            0 <= k < definitions.len() ==> links_defined(
                (#[trigger] definitions[k]).expression,
                defined_names(definitions.take(k)),
            ),
        resolve_all(definitions) is Ok ==> resolve_all(definitions)->Ok_0.dom() == defined_names(
            definitions,
        ),
    decreases definitions.len(),
{
    if definitions.len() == 0 {
        assert(Map::<Seq<char>, TExpr>::empty().dom() =~= defined_names(definitions));
    } else {
        let front = definitions.drop_last();
        let last = definitions.last();
        let n = front.len() as int;
        lemma_resolve_all_succeeds(front);
        assert(definitions.take(n) =~= front);
        assert forall|k: int| 0 <= k < n implies definitions.take(k) == front.take(k) by {
            assert(definitions.take(k) =~= front.take(k));
        }
        if resolve_all(front) is Ok {
            let registry = resolve_all(front)->Ok_0;
            lemma_resolve_succeeds(last.expression, registry, Map::empty(), total_binders(front));
            if resolve_all(definitions) is Ok {
                assert forall|k: int| 0 <= k < definitions.len() implies links_defined(
                    (#[trigger] definitions[k]).expression,
                    defined_names(definitions.take(k)),
                ) by {
                    if k < n {
                        assert(front[k] == definitions[k]);
                    }
                }
                let after = resolve_all(definitions)->Ok_0;
                assert forall|name: Seq<char>| after.dom().contains(name) <==> defined_names(
                    definitions,
                ).contains(name) by {
                    if after.dom().contains(name) && name != last.name {
                        assert(defined_names(front).contains(name));
                        let k = choose|k: int|
                            0 <= k < front.len() && (#[trigger] front[k]).name == name;
                        assert(definitions[k].name == name);
                    }
                    if name == last.name {
                        assert(definitions[n].name == name);
                    }
                    if defined_names(definitions).contains(name) && name != last.name {
                        let k = choose|k: int|
                            0 <= k < definitions.len() && (#[trigger] definitions[k]).name == name;
                        assert(front[k].name == name);
                        assert(defined_names(front).contains(name));
                    }
                }
                assert(after.dom() =~= defined_names(definitions));
            } else {
                assert(!links_defined(definitions[n].expression, defined_names(definitions.take(n))));
            }
        } else {
            let k = choose|k: int|
                0 <= k < front.len() && !links_defined(
                    (#[trigger] front[k]).expression,
                    defined_names(front.take(k)),
                );
            assert(front[k] == definitions[k]);
            assert(!links_defined(definitions[k].expression, defined_names(definitions.take(k))));
        }
    }
}

/// A program resolves exactly when every reference in each of its
/// definitions is to a name that an earlier definition defines, and one of
/// its definitions is named `MAIN`.
pub proof fn lemma_resolve_program_succeeds(definitions: Seq<Definition>)
    ensures
        resolve_program(definitions) is Ok <==> (forall|k: int|
            0 <= k < definitions.len() ==> links_defined(
                (#[trigger] definitions[k]).expression,
                defined_names(definitions.take(k)),
            )) && defined_names(definitions).contains("MAIN"@),
{
    lemma_resolve_all_succeeds(definitions);
}

} // verus!
