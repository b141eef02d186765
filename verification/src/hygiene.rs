//! What resolution guarantees about the identities of binders.
//!
//! Every binder written in a program receives an identity of its own. A
//! binder that reaches an expression through an alias reference is a copy,
//! and keeps the identity of the binder it was copied from. What a name
//! stands for never changes: a definition of a name that is defined already
//! is resolved, but not stored.

use crate::token::{
    binders, binders_each, lemma_resolve_all_fails, lemma_total_binders_prefix, resolve,
    resolve_all, resolve_each, total_binders, Unresolved,
};
use crate::types::{Definition, Expr, TExpr, Token};
use vstd::prelude::*;

verus! {

/// The number of binders in `e` whose parameter carries `token`.
pub open spec fn binder_count(e: TExpr, token: Token) -> nat
    decreases e,
{
    match e {
        TExpr::Function { parameter, body } => (if parameter.1 == token {
            1nat
        } else {
            0nat
        }) + binder_count_each(body, token),
        TExpr::Variable { variable } => 0,
    }
}

/// The number of binders in the expressions of `body` whose parameter
/// carries `token`.
pub open spec fn binder_count_each(body: Seq<TExpr>, token: Token) -> nat
    decreases body,
{
    if body.len() == 0 {
        0
    } else {
        binder_count_each(body.drop_last(), token) + binder_count(body.last(), token)
    }
}

/// Every binder of every definition in `registry` has an identity below
/// `bound`.
pub open spec fn registry_below(registry: Map<Seq<char>, TExpr>, bound: nat) -> bool {
    forall|name: Seq<char>, token: Token|
        registry.contains_key(name) && #[trigger] binder_count(registry[name], token) > 0 ==> token
            is Bound && token->Bound_0 < bound
}

/// The binders of `e` are those of a resolution that started at identity
/// `lo`, stopped at `hi` and copied from definitions below `bound`: each
/// identity from `lo` up to `hi` marks exactly one binder, and every other
/// binder has an identity below `bound`.
pub open spec fn fresh_binders(e: TExpr, bound: nat, lo: nat, hi: nat) -> bool {
    &&& forall|token: Token| #[trigger]
        binder_count(e, token) > 0 ==> token is Bound && (token->Bound_0 < bound || lo
            <= token->Bound_0 < hi)
    &&& forall|id: u64| lo <= id < hi ==> #[trigger] binder_count(e, Token::Bound(id)) == 1
}

/// [`fresh_binders`] of a run of expressions taken together.
pub open spec fn fresh_binders_each(body: Seq<TExpr>, bound: nat, lo: nat, hi: nat) -> bool {
    &&& forall|token: Token| #[trigger]
        binder_count_each(body, token) > 0 ==> token is Bound && (token->Bound_0 < bound || lo
            <= token->Bound_0 < hi)
    &&& forall|id: u64| lo <= id < hi ==> #[trigger] binder_count_each(body, Token::Bound(id)) == 1
}

/// Each binder written in an expression receives its own identity.
///
/// When `e` resolves from identity `next` against a registry whose binders
/// are all below `bound`, and `bound` is at most `next`, then each of the
/// identities from `next` up to `next + binders(e)` marks exactly one binder
/// of the result, and every other binder of the result was copied from the
/// registry.
pub proof fn lemma_resolve_fresh_binders(
    e: Expr,
    registry: Map<Seq<char>, TExpr>,
    scope: Map<char, Token>,
    bound: nat,
    next: nat,
)
    requires
        registry_below(registry, bound),
        bound <= next,
        next + binders(e) <= u64::MAX,
        resolve(e, registry, scope, next) is Ok,
    ensures
        fresh_binders(resolve(e, registry, scope, next)->Ok_0, bound, next, next + binders(e)),
    decreases e,
{
    let resolved = resolve(e, registry, scope, next)->Ok_0;
    match e {
        Expr::Function { parameter, body } => {
            let token = Token::Bound(next as u64);
            let inner = scope.insert(parameter, token);
            lemma_resolve_each_fresh_binders(body, registry, inner, bound, next + 1);
            let items = resolve_each(body, registry, inner, next + 1)->Ok_0;
            assert(forall|t: Token|
                binder_count(resolved, t) == (if token == t {
                    1nat
                } else {
                    0nat
                }) + #[trigger] binder_count_each(items, t));
            assert forall|t: Token| #[trigger] binder_count(resolved, t) > 0 implies t is Bound && (
            t->Bound_0 < bound || next <= t->Bound_0 < next + binders(e)) by {
                if token != t {
                    assert(binder_count_each(items, t) > 0);
                }
            }
            assert forall|id: u64| next <= id < next + binders(e) implies #[trigger] binder_count(
                resolved,
                Token::Bound(id),
            ) == 1 by {
                assert(fresh_binders_each(items, bound, next + 1, next + 1 + binders_each(body)));
                assert(binders(e) == 1 + binders_each(body));
                if id == next {
                    assert(token == Token::Bound(id));
                    assert(binder_count_each(items, Token::Bound(id)) == 0);
                } else {
                    assert(token != Token::Bound(id));
                    assert(binder_count_each(items, Token::Bound(id)) == 1);
                }
            }
        },
        Expr::Variable { letter } => {},
        Expr::AliasLink { name } => {
            assert(resolved == registry[name]);
        },
    }
}

/// [`lemma_resolve_fresh_binders`] for a run of expressions resolved from
/// left to right.
pub proof fn lemma_resolve_each_fresh_binders(
    body: Seq<Expr>,
    registry: Map<Seq<char>, TExpr>,
    scope: Map<char, Token>,
    bound: nat,
    next: nat,
)
    requires
        registry_below(registry, bound),
        bound <= next,
        next + binders_each(body) <= u64::MAX,
        resolve_each(body, registry, scope, next) is Ok,
    ensures
        fresh_binders_each(
            resolve_each(body, registry, scope, next)->Ok_0,
            bound,
            next,
            next + binders_each(body),
        ),
    decreases body,
{
    if body.len() > 0 {
        let middle = next + binders_each(body.drop_last());
        lemma_resolve_each_fresh_binders(body.drop_last(), registry, scope, bound, next);
        lemma_resolve_fresh_binders(body.last(), registry, scope, bound, middle);
        let front = resolve_each(body.drop_last(), registry, scope, next)->Ok_0;
        let last = resolve(body.last(), registry, scope, middle)->Ok_0;
        let items = front.push(last);
        assert(items.drop_last() =~= front);
        assert(items.last() == last);
        assert(forall|t: Token| #[trigger]
            binder_count_each(items, t) == binder_count_each(front, t) + binder_count(last, t));
        assert forall|id: u64| next <= id < next + binders_each(body) implies #[trigger] binder_count_each(
            items,
            Token::Bound(id),
        ) == 1 by {
            if id < middle {
                assert(binder_count(last, Token::Bound(id)) == 0);
            } else {
                assert(binder_count_each(front, Token::Bound(id)) == 0);
            }
        }
    }
}

/// Every bound token that `scope` holds has an identity below `bound`.
pub open spec fn scope_below(scope: Map<char, Token>, bound: nat) -> bool {
    forall|letter: char|
        scope.contains_key(letter) && (#[trigger] scope[letter]) is Bound
            ==> scope[letter]->Bound_0 < bound
}

/// The binders written in an expression receive identities that the scope
/// does not hold.
///
/// When `e` resolves from identity `next`, the registry's binders are all
/// below `bound`, at most `next`, and the bound tokens of `scope` are all
/// below `next`, then none of the identities from `next` up to
/// `next + binders(e)`, each of which marks exactly one binder of the result,
/// is held by `scope`. A binder of the result that carries a token of `scope`
/// is therefore a copy from the registry.
pub proof fn lemma_resolve_fresh_from_scope(
    e: Expr,
    registry: Map<Seq<char>, TExpr>,
    scope: Map<char, Token>,
    bound: nat,
    next: nat,
)
    requires
        registry_below(registry, bound),
        bound <= next,
        scope_below(scope, next),
        next + binders(e) <= u64::MAX,
        resolve(e, registry, scope, next) is Ok,
    ensures
        fresh_binders(resolve(e, registry, scope, next)->Ok_0, bound, next, next + binders(e)),
        forall|letter: char|
            scope.contains_key(letter) && (#[trigger] scope[letter]) is Bound ==> !(next
                <= scope[letter]->Bound_0 < next + binders(e)),
        forall|letter: char|
            scope.contains_key(letter) && binder_count(
                resolve(e, registry, scope, next)->Ok_0,
                #[trigger] scope[letter],
            ) > 0 ==> scope[letter] is Bound && scope[letter]->Bound_0 < bound,
{
    lemma_resolve_fresh_binders(e, registry, scope, bound, next);
    let resolved = resolve(e, registry, scope, next)->Ok_0;
    assert forall|letter: char|
        scope.contains_key(letter) && binder_count(resolved, #[trigger] scope[letter])
            > 0 implies scope[letter] is Bound && scope[letter]->Bound_0 < bound by {
        let token = scope[letter];
        assert(binder_count(resolved, token) > 0);
    }
}

/// What a name stands for never changes: every definition that the registry
/// holds after the first `n` definitions of a program is in the registry
/// after all of them, and stands for the same expression.
pub proof fn lemma_resolve_all_keeps(definitions: Seq<Definition>, n: int, name: Seq<char>)
    requires
        resolve_all(definitions) is Ok,
        0 <= n <= definitions.len(),
        resolve_all(definitions.take(n)) is Ok,
        resolve_all(definitions.take(n))->Ok_0.contains_key(name),
    ensures
        resolve_all(definitions)->Ok_0.contains_key(name),
        resolve_all(definitions)->Ok_0[name] == resolve_all(definitions.take(n))->Ok_0[name],
    decreases definitions.len(),
{
    if n == definitions.len() {
        assert(definitions.take(n) =~= definitions);
    } else {
        assert(definitions.drop_last().take(n) =~= definitions.take(n));
        lemma_resolve_all_keeps(definitions.drop_last(), n, name);
    }
}

/// The definitions before any place of a program that resolves resolve too.
pub proof fn lemma_resolve_all_prefix(definitions: Seq<Definition>, n: int)
    requires
        resolve_all(definitions) is Ok,
        0 <= n <= definitions.len(),
    ensures
        resolve_all(definitions.take(n)) is Ok,
{
    if resolve_all(definitions.take(n)) is Err {
        lemma_resolve_all_fails(definitions, n);
    }
}

/// After a program has resolved, every binder in its registry has an
/// identity below the number of binders written in the program.
pub proof fn lemma_resolve_all_below(definitions: Seq<Definition>)
    requires
        resolve_all(definitions) is Ok,
        total_binders(definitions) <= u64::MAX,
    ensures
        registry_below(resolve_all(definitions)->Ok_0, total_binders(definitions)),
    decreases definitions.len(),
{
    if definitions.len() > 0 {
        let earlier = definitions.drop_last();
        let start = total_binders(earlier);
        let registry = resolve_all(earlier)->Ok_0;
        let definition = definitions.last();
        lemma_resolve_all_below(earlier);
        lemma_resolve_fresh_binders(definition.expression, registry, Map::empty(), start, start);
        let resolved = resolve(definition.expression, registry, Map::empty(), start)->Ok_0;
        let after = resolve_all(definitions)->Ok_0;
        assert forall|name: Seq<char>, token: Token|
            after.contains_key(name) && #[trigger] binder_count(after[name], token)
                > 0 implies token is Bound && token->Bound_0 < total_binders(definitions) by {
            if registry.contains_key(name) {
                assert(after[name] == registry[name]);
                assert(binder_count(registry[name], token) > 0);
            } else {
                assert(after[name] == resolved);
            }
        }
    }
}

/// No two binders written in a program share an identity.
///
/// Take the definition at `k` of a program that resolves. The definitions
/// before it resolve to a registry whose binders are all below the number of
/// binders written so far. From that number on, each binder written in the
/// definition takes the next identity, and marks exactly one binder of the
/// definition's resolved expression. Such an identity is therefore shared
/// with no binder of an earlier definition and no other binder of this one;
/// the next definition starts where this one stopped. The resolved
/// expression is what the name stands for from then on, unless the name was
/// defined before: then the registry stays as it was.
pub proof fn lemma_definition_fresh_binders(definitions: Seq<Definition>, k: int)
    requires
        resolve_all(definitions) is Ok,
        total_binders(definitions) <= u64::MAX,
        0 <= k < definitions.len(),
    ensures
        ({
            let earlier = definitions.take(k);
            let registry = resolve_all(earlier)->Ok_0;
            let start = total_binders(earlier);
            let stop = start + binders(definitions[k].expression);
            let resolved = resolve(definitions[k].expression, registry, Map::empty(), start)->Ok_0;
            &&& resolve_all(earlier) is Ok
            &&& registry_below(registry, start)
            &&& resolve(definitions[k].expression, registry, Map::empty(), start) is Ok
            &&& fresh_binders(resolved, start, start, stop)
            &&& stop == total_binders(definitions.take(k + 1))
            &&& stop <= total_binders(definitions)
            &&& resolve_all(definitions.take(k + 1)) == Ok::<Map<Seq<char>, TExpr>, Unresolved>(
                if registry.contains_key(definitions[k].name) {
                    registry
                } else {
                    registry.insert(definitions[k].name, resolved)
                },
            )
        }),
{
    let earlier = definitions.take(k);
    let through = definitions.take(k + 1);
    assert(through.drop_last() =~= earlier);
    assert(through.last() == definitions[k]);
    lemma_resolve_all_prefix(definitions, k + 1);
    lemma_total_binders_prefix(definitions, k + 1);
    lemma_resolve_all_below(earlier);
    lemma_resolve_fresh_binders(
        definitions[k].expression,
        resolve_all(earlier)->Ok_0,
        Map::empty(),
        total_binders(earlier),
        total_binders(earlier),
    );
}

/// Whether `e` holds no alias reference.
pub open spec fn link_free(e: Expr) -> bool
    decreases e,
{
    match e {
        Expr::Function { parameter, body } => forall|i: int|
            0 <= i < body.len() ==> link_free(#[trigger] body[i]),
        Expr::Variable { letter } => true,
        Expr::AliasLink { name } => false,
    }
}

/// An expression without alias references resolves, whatever the registry,
/// and into the same expression as against the empty registry.
pub proof fn lemma_link_free_resolves(
    e: Expr,
    registry: Map<Seq<char>, TExpr>,
    scope: Map<char, Token>,
    next: nat,
)
    requires
        link_free(e),
    ensures
        resolve(e, registry, scope, next) is Ok,
        resolve(e, registry, scope, next) == resolve(e, Map::empty(), scope, next),
    decreases e,
{
    match e {
        Expr::Function { parameter, body } => {
            let inner = scope.insert(parameter, Token::Bound(next as u64));
            lemma_link_free_resolves_each(body, registry, inner, next + 1);
        },
        Expr::Variable { letter } => {},
        Expr::AliasLink { name } => {},
    }
}

/// [`lemma_link_free_resolves`] for a run of expressions.
pub proof fn lemma_link_free_resolves_each(
    body: Seq<Expr>,
    registry: Map<Seq<char>, TExpr>,
    scope: Map<char, Token>,
    next: nat,
)
    requires
        forall|i: int| 0 <= i < body.len() ==> link_free(#[trigger] body[i]),
    ensures
        resolve_each(body, registry, scope, next) is Ok,
        resolve_each(body, registry, scope, next) == resolve_each(
            body,
            Map::empty(),
            scope,
            next,
        ),
    decreases body,
{
    if body.len() > 0 {
        let front = body.drop_last();
        assert forall|i: int| 0 <= i < front.len() implies link_free(#[trigger] front[i]) by {
            assert(front[i] == body[i]);
        }
        lemma_link_free_resolves_each(front, registry, scope, next);
        assert(link_free(body[body.len() - 1]));
        lemma_link_free_resolves(body.last(), registry, scope, next + binders_each(front));
    }
}

/// In the resolution of an expression without alias references, no two
/// binders share an identity: the identities are those from `next` on, each
/// at one binder.
pub proof fn lemma_link_free_binders_distinct(
    e: Expr,
    registry: Map<Seq<char>, TExpr>,
    scope: Map<char, Token>,
    next: nat,
)
    requires
        link_free(e),
        next + binders(e) <= u64::MAX,
    ensures
        resolve(e, registry, scope, next) is Ok,
        fresh_binders(resolve(e, registry, scope, next)->Ok_0, 0, next, next + binders(e)),
        forall|token: Token| #[trigger]
            binder_count(resolve(e, registry, scope, next)->Ok_0, token) <= 1,
{
    lemma_link_free_resolves(e, registry, scope, next);
    lemma_resolve_fresh_binders(e, Map::empty(), scope, 0, next);
    let resolved = resolve(e, registry, scope, next)->Ok_0;
    assert forall|token: Token| #[trigger] binder_count(resolved, token) <= 1 by {
        if binder_count(resolved, token) > 0 {
            assert(token == Token::Bound(token->Bound_0));
        }
    }
}

/// In the resolution of an expression without alias references, every
/// binder is new: its token is bound, no two binders share a token, and,
/// where the bound tokens of `scope` are all below `next`, no binder carries
/// a token that `scope` holds.
pub proof fn lemma_link_free_binders_apart_from_scope(
    e: Expr,
    registry: Map<Seq<char>, TExpr>,
    scope: Map<char, Token>,
    next: nat,
)
    requires
        link_free(e),
        scope_below(scope, next),
        next + binders(e) <= u64::MAX,
    ensures
        resolve(e, registry, scope, next) is Ok,
        forall|token: Token| #[trigger]
            binder_count(resolve(e, registry, scope, next)->Ok_0, token) > 0 ==> token is Bound,
        forall|token: Token| #[trigger]
            binder_count(resolve(e, registry, scope, next)->Ok_0, token) <= 1,
        forall|letter: char|
            scope.contains_key(letter) ==> binder_count(
                resolve(e, registry, scope, next)->Ok_0,
                #[trigger] scope[letter],
            ) == 0,
{
    lemma_link_free_binders_distinct(e, registry, scope, next);
    let resolved = resolve(e, registry, scope, next)->Ok_0;
    assert forall|letter: char| scope.contains_key(letter) implies binder_count(
        resolved,
        #[trigger] scope[letter],
    ) == 0 by {
        let token = scope[letter];
        if binder_count(resolved, token) > 0 {
            assert(token is Bound);
            assert(token->Bound_0 < next);
        }
    }
}

/// No identity marks two binders of `registry`, in one definition or in two.
pub open spec fn registry_binders_distinct(registry: Map<Seq<char>, TExpr>) -> bool {
    &&& forall|name: Seq<char>, token: Token|
        registry.contains_key(name) ==> #[trigger] binder_count(registry[name], token) <= 1
    &&& forall|first: Seq<char>, second: Seq<char>, token: Token|
        registry.contains_key(first) && registry.contains_key(second) && first != second
            && #[trigger] binder_count(registry[first], token) > 0 ==> #[trigger] binder_count(
            registry[second],
            token,
        ) == 0
}

/// A program without alias references resolves to a registry in which all
/// binders have pairwise distinct identities.
pub proof fn lemma_link_free_program_distinct(definitions: Seq<Definition>)
    requires
        forall|k: int| 0 <= k < definitions.len() ==> link_free(#[trigger] definitions[k].expression),
        total_binders(definitions) <= u64::MAX,
    ensures
        resolve_all(definitions) is Ok,
        registry_binders_distinct(resolve_all(definitions)->Ok_0),
    decreases definitions.len(),
{
    if definitions.len() > 0 {
        let earlier = definitions.drop_last();
        let start = total_binders(earlier);
        let definition = definitions.last();
        assert forall|k: int| 0 <= k < earlier.len() implies link_free(
            #[trigger] earlier[k].expression,
        ) by {
            assert(earlier[k] == definitions[k]);
        }
        lemma_link_free_program_distinct(earlier);
        lemma_resolve_all_below(earlier);
        let registry = resolve_all(earlier)->Ok_0;
        assert(link_free(definitions[definitions.len() - 1].expression));
        lemma_link_free_binders_distinct(definition.expression, registry, Map::empty(), start);
        let resolved = resolve(definition.expression, registry, Map::empty(), start)->Ok_0;
        if !registry.contains_key(definition.name) {
            let after = registry.insert(definition.name, resolved);
            assert(resolve_all(definitions) == Ok::<Map<Seq<char>, TExpr>, Unresolved>(after));
            assert forall|name: Seq<char>, token: Token|
                after.contains_key(name) implies #[trigger] binder_count(after[name], token)
                <= 1 by {
                if name != definition.name {
                    assert(registry.contains_key(name));
                }
            }
            assert forall|first: Seq<char>, second: Seq<char>, token: Token|
                after.contains_key(first) && after.contains_key(second) && first != second
                    && #[trigger] binder_count(after[first], token)
                    > 0 implies #[trigger] binder_count(after[second], token) == 0 by {
                if first == definition.name {
                    assert(registry.contains_key(second));
                    if binder_count(registry[second], token) > 0 {
                        assert(token->Bound_0 < start);
                    }
                } else if second == definition.name {
                    assert(registry.contains_key(first));
                    assert(binder_count(registry[first], token) > 0);
                    if binder_count(resolved, token) > 0 {
                        assert(token->Bound_0 >= start);
                    }
                } else {
                    assert(registry.contains_key(first));
                    assert(registry.contains_key(second));
                }
            }
        } else {
            assert(resolve_all(definitions) == Ok::<Map<Seq<char>, TExpr>, Unresolved>(registry));
        }
    }
}

} // verus!
