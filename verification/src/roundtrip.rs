//! What is displayed can be read back.
//!
//! The text of a resolved expression is, read by the grammar, the expression
//! it was written from, without its tokens.

use crate::grammar::{
    at, atom, expression, expressions, function, is_lower, is_space, item, skip_spaces,
    spaced_item, spaced_items, Failure,
};
use crate::hygiene::{lemma_link_free_resolves, link_free};
use crate::parsed::{well_formed, well_formed_each};
use crate::token::{binders_each, resolve, resolve_each};
use crate::types::display::{rendered, rendered_each, rendered_group};
use crate::types::{Expr, TExpr, Token};
use vstd::prelude::*;

verus! {

/// `e` without its tokens.
pub open spec fn erased(e: TExpr) -> Expr
    decreases e,
{
    match e {
        TExpr::Function { parameter, body } => Expr::Function {
            parameter: parameter.0,
            body: erased_each(body),
        },
        TExpr::Variable { variable } => Expr::Variable { letter: variable.0 },
    }
}

/// The expressions of `body` without their tokens.
pub open spec fn erased_each(body: Seq<TExpr>) -> Seq<Expr>
    decreases body,
{
    Seq::new(
        body.len(),
        |i: int|
            if 0 <= i < body.len() {
                erased(body[i])
            } else {
                arbitrary()
            },
    )
}

/// Whether `e` is one that the grammar can give: its letters are lowercase
/// and no function in it has an empty body.
pub open spec fn readable(e: TExpr) -> bool
    decreases e,
{
    match e {
        TExpr::Function { parameter, body } => is_lower(parameter.0) && body.len() > 0 && forall|
            i: int,
        | 0 <= i < body.len() ==> readable(#[trigger] body[i]),
        TExpr::Variable { variable } => is_lower(variable.0),
    }
}

/// Whether `word` stands in `s` at `pos`.
pub open spec fn stands_at(s: Seq<char>, pos: int, word: Seq<char>) -> bool {
    &&& 0 <= pos
    &&& pos + word.len() <= s.len()
    &&& forall|i: int| 0 <= i < word.len() ==> s[pos + i] == #[trigger] word[i]
}

/// A word made of two stands where its first part stands, with the second
/// part right after.
pub proof fn lemma_stands_at_parts(s: Seq<char>, pos: int, first: Seq<char>, second: Seq<char>)
    requires
        stands_at(s, pos, first + second),
    ensures
        stands_at(s, pos, first),
        stands_at(s, pos + first.len(), second),
{
    let word = first + second;
    assert forall|i: int| 0 <= i < first.len() implies s[pos + i] == #[trigger] first[i] by {
        assert(word[i] == first[i]);
    }
    assert forall|i: int| 0 <= i < second.len() implies s[pos + first.len() + i]
        == #[trigger] second[i] by {
        assert(word[first.len() + i] == second[i]);
        assert(s[pos + (first.len() + i)] == word[first.len() + i]);
    }
}

/// The text of a run with one expression put in front.
pub proof fn lemma_rendered_each_cons(first: TExpr, rest: Seq<TExpr>)
    ensures
        rendered_each(seq![first] + rest) == if rest.len() == 0 {
            rendered(first)
        } else {
            rendered(first) + (seq![' '] + rendered_each(rest))
        },
    decreases rest.len(),
{
    let all = seq![first] + rest;
    let single = seq![first];
    assert(single[0] == first);
    assert(rendered_each(single) == rendered(first));
    if rest.len() == 0 {
        assert(all =~= single);
    } else if rest.len() == 1 {
        assert(all.drop_last() =~= single);
        assert(all.last() == rest[0]);
        assert(rendered_each(rest) == rendered(rest[0]));
        assert(rendered_each(all) == rendered(first) + seq![' '] + rendered(rest[0]));
        assert(rendered(first) + seq![' '] + rendered(rest[0]) =~= rendered(first) + (seq![' ']
            + rendered(rest[0])));
    } else {
        let front = rest.drop_last();
        assert(all.drop_last() =~= seq![first] + front);
        assert(all.last() == rest.last());
        lemma_rendered_each_cons(first, front);
        assert(rendered_each(all) == rendered_each(seq![first] + front) + seq![' '] + rendered(
            rest.last(),
        ));
        assert(rendered_each(rest) == rendered_each(front) + seq![' '] + rendered(rest.last()));
        assert(rendered(first) + (seq![' '] + rendered_each(front)) + seq![' '] + rendered(
            rest.last(),
        ) =~= rendered(first) + (seq![' '] + (rendered_each(front) + seq![' '] + rendered(
            rest.last(),
        ))));
    }
}

/// The text of a readable expression starts with a lambda or a lowercase
/// letter.
pub proof fn lemma_rendered_start(e: TExpr)
    requires
        readable(e),
    ensures
        rendered(e).len() > 0,
        rendered(e)[0] == 'λ' || is_lower(rendered(e)[0]),
{
    match e {
        TExpr::Function { parameter, body } => {
            let head = seq!['λ', parameter.0, '.', '('];
            assert(rendered(e)[0] == head[0]);
        },
        TExpr::Variable { variable } => {},
    }
}

/// The text of a run of readable expressions starts with a lambda or a
/// lowercase letter.
pub proof fn lemma_rendered_each_start(body: Seq<TExpr>)
    requires
        body.len() > 0,
        readable(body[0]),
    ensures
        rendered_each(body).len() > 0,
        rendered_each(body)[0] == 'λ' || is_lower(rendered_each(body)[0]),
{
    let rest = body.subrange(1, body.len() as int);
    assert(body =~= seq![body[0]] + rest);
    lemma_rendered_each_cons(body[0], rest);
    lemma_rendered_start(body[0]);
}

/// Where a lambda, a lowercase parameter, a dot and an opening parenthesis
/// stand before a run of items that ends at a closing parenthesis, the
/// grammar reads a function.
pub proof fn lemma_reads_function(
    s: Seq<char>,
    pos: int,
    parameter: char,
    body: Seq<Expr>,
    close: int,
)
    requires
        at(s, pos, 'λ'),
        at(s, pos + 1, parameter),
        is_lower(parameter),
        at(s, pos + 2, '.'),
        at(s, pos + 3, '('),
        spaced_item(s, pos + 4) is Ok,
        spaced_items(s, pos + 4) == (body, close),
        at(s, close, ')'),
    ensures
        atom(s, pos) == Ok::<(Expr, int), Failure>(
            (Expr::Function { parameter, body }, close + 1),
        ),
        expression(s, pos) == atom(s, pos),
        item(s, pos) == atom(s, pos),
{
    assert(expressions(s, pos + 3) == Ok::<(Seq<Expr>, int), Failure>((body, close + 1)));
    assert(function(s, pos) == Ok::<(Expr, int), Failure>(
        (Expr::Function { parameter, body }, close + 1),
    ));
}

/// Where the text of a readable expression stands, the grammar reads the
/// expression, whatever follows.
pub proof fn lemma_reads_back(e: TExpr, s: Seq<char>, pos: int)
    requires
        readable(e),
        stands_at(s, pos, rendered(e)),
    ensures
        atom(s, pos) == Ok::<(Expr, int), Failure>((erased(e), pos + rendered(e).len())),
        expression(s, pos) == atom(s, pos),
        item(s, pos) == atom(s, pos),
    decreases e,
{
    match e {
        TExpr::Function { parameter, body } => {
            let head = seq!['λ', parameter.0, '.', '('];
            let inside = rendered_each(body);
            let tail = seq![')'];
            assert(rendered(e) =~= head + (inside + tail));
            lemma_stands_at_parts(s, pos, head, inside + tail);
            lemma_stands_at_parts(s, pos + 4, inside, tail);
            assert(s[pos + 0] == head[0] && s[pos + 1] == head[1] && s[pos + 2] == head[2] && s[pos
                + 3] == head[3]);
            assert(s[pos + 4 + inside.len() + 0] == tail[0]);
            lemma_reads_back_each(body, s, pos + 4);
            lemma_reads_function(
                s,
                pos,
                parameter.0,
                erased_each(body),
                pos + 4 + inside.len(),
            );
        },
        TExpr::Variable { variable } => {
            assert(s[pos + 0] == rendered(e)[0]);
        },
    }
}

/// An item that is read before a closing parenthesis ends the run there.
pub proof fn lemma_reads_last(s: Seq<char>, pos: int, found: Expr, after: int)
    requires
        0 <= pos < after,
        !is_space(s[pos]),
        item(s, pos) == Ok::<(Expr, int), Failure>((found, after)),
        at(s, after, ')'),
    ensures
        spaced_item(s, pos) is Ok,
        spaced_items(s, pos) == (seq![found], after),
{
    assert(skip_spaces(s, pos) == pos);
    assert(skip_spaces(s, after) == after);
    lemma_stops_at_close(s, after);
    assert(spaced_item(s, pos) == Ok::<(Expr, int), Failure>((found, after)));
    assert(seq![found] + Seq::<Expr>::empty() =~= seq![found]);
}

/// An item that is read before one space and a further run is the first of
/// the run.
pub proof fn lemma_reads_next(s: Seq<char>, pos: int, found: Expr, after: int, rest: Seq<Expr>, end: int)
    requires
        0 <= pos < after,
        !is_space(s[pos]),
        item(s, pos) == Ok::<(Expr, int), Failure>((found, after)),
        at(s, after, ' '),
        0 <= after + 1 < s.len(),
        !is_space(s[after + 1]),
        spaced_items(s, after + 1) == (rest, end),
    ensures
        spaced_item(s, pos) is Ok,
        spaced_items(s, pos) == (seq![found] + rest, end),
{
    assert(skip_spaces(s, pos) == pos);
    assert(skip_spaces(s, after + 1) == after + 1);
    assert(skip_spaces(s, after) == after + 1);
    assert(spaced_item(s, pos) == Ok::<(Expr, int), Failure>((found, after + 1)));
}

/// Where the text of a run of readable expressions stands before a closing
/// parenthesis, the grammar reads the run up to the parenthesis.
pub proof fn lemma_reads_back_each(body: Seq<TExpr>, s: Seq<char>, pos: int)
    requires
        body.len() > 0,
        forall|i: int| 0 <= i < body.len() ==> readable(#[trigger] body[i]),
        stands_at(s, pos, rendered_each(body)),
        at(s, pos + rendered_each(body).len(), ')'),
    ensures
        spaced_item(s, pos) is Ok,
        spaced_items(s, pos) == (erased_each(body), pos + rendered_each(body).len()),
    decreases body,
{
    let first = body[0];
    let rest = body.subrange(1, body.len() as int);
    let head = rendered(first);
    let after = pos + head.len();
    assert(body =~= seq![first] + rest);
    assert(readable(first));
    lemma_rendered_each_cons(first, rest);
    lemma_rendered_start(first);
    if rest.len() == 0 {
        lemma_reads_back(first, s, pos);
        assert(s[pos + 0] == head[0]);
        lemma_reads_last(s, pos, erased(first), after);
        assert(erased_each(body) =~= seq![erased(first)]);
    } else {
        let tail = rendered_each(rest);
        let space = seq![' '];
        lemma_stands_at_parts(s, pos, head, space + tail);
        lemma_stands_at_parts(s, after, space, tail);
        lemma_reads_back(first, s, pos);
        assert(s[pos + 0] == head[0]);
        assert(s[after + 0] == space[0]);
        assert forall|i: int| 0 <= i < rest.len() implies readable(#[trigger] rest[i]) by {
            assert(rest[i] == body[i + 1]);
        }
        lemma_rendered_each_start(rest);
        assert(s[after + 1 + 0] == tail[0]);
        lemma_reads_back_each(rest, s, after + 1);
        lemma_reads_next(s, pos, erased(first), after, erased_each(rest), after + 1 + tail.len());
        assert(erased_each(body) =~= seq![erased(first)] + erased_each(rest));
    }
}

/// Nothing can be read at a closing parenthesis.
pub proof fn lemma_stops_at_close(s: Seq<char>, pos: int)
    requires
        at(s, pos, ')'),
    ensures
        spaced_item(s, pos) is Err,
        spaced_items(s, pos) == (Seq::<Expr>::empty(), pos),
{
    assert(skip_spaces(s, pos) == pos);
    assert(function(s, pos) is Err);
    assert(atom(s, pos) is Err);
    assert(expression(s, pos) is Err);
    assert(item(s, pos) is Err);
}

/// The text of a readable expression, read as an expression, is the
/// expression without its tokens, and nothing is left over.
pub proof fn lemma_display_reads_back(e: TExpr)
    requires
        readable(e),
    ensures
        expression(rendered(e), 0) == Ok::<(Expr, int), Failure>(
            (erased(e), rendered(e).len() as int),
        ),
{
    lemma_reads_back(e, rendered(e), 0);
}

/// The text of a group of readable expressions, read as the body of a
/// function, is the expressions without their tokens, and nothing is left
/// over.
pub proof fn lemma_display_group_reads_back(body: Seq<TExpr>)
    requires
        body.len() > 0,
        forall|i: int| 0 <= i < body.len() ==> readable(#[trigger] body[i]),
    ensures
        expressions(rendered_group(body), 0) == Ok::<(Seq<Expr>, int), Failure>(
            (erased_each(body), rendered_group(body).len() as int),
        ),
{
    let s = rendered_group(body);
    let open = seq!['('];
    let inside = rendered_each(body);
    let close = seq![')'];
    assert(s =~= open + (inside + close));
    assert(stands_at(s, 0, s));
    lemma_stands_at_parts(s, 0, open, inside + close);
    lemma_stands_at_parts(s, 1, inside, close);
    assert(s[0int + 0] == open[0]);
    assert(s[1int + inside.len() + 0] == close[0]);
    lemma_reads_back_each(body, s, 1);
}

/// Whether every definition of `registry` is readable.
pub open spec fn registry_readable(registry: Map<Seq<char>, TExpr>) -> bool {
    forall|name: Seq<char>| registry.contains_key(name) ==> readable(#[trigger] registry[name])
}

/// A well-formed expression resolves, against readable definitions, into a
/// readable expression.
pub proof fn lemma_resolve_readable(
    e: Expr,
    registry: Map<Seq<char>, TExpr>,
    scope: Map<char, Token>,
    next: nat,
)
    requires
        well_formed(e),
        registry_readable(registry),
        resolve(e, registry, scope, next) is Ok,
    ensures
        readable(resolve(e, registry, scope, next)->Ok_0),
    decreases e,
{
    match e {
        Expr::Function { parameter, body } => {
            let inner = scope.insert(parameter, Token::Bound(next as u64));
            lemma_resolve_each_readable(body, registry, inner, next + 1);
        },
        Expr::Variable { letter } => {},
        Expr::AliasLink { name } => {},
    }
}

/// [`lemma_resolve_readable`] for a run of expressions.
pub proof fn lemma_resolve_each_readable(
    body: Seq<Expr>,
    registry: Map<Seq<char>, TExpr>,
    scope: Map<char, Token>,
    next: nat,
)
    requires
        forall|i: int| 0 <= i < body.len() ==> well_formed(#[trigger] body[i]),
        registry_readable(registry),
        resolve_each(body, registry, scope, next) is Ok,
    ensures
        resolve_each(body, registry, scope, next)->Ok_0.len() == body.len(),
        forall|i: int|
            0 <= i < body.len() ==> readable(
                #[trigger] resolve_each(body, registry, scope, next)->Ok_0[i],
            ),
    decreases body,
{
    if body.len() > 0 {
        let front = body.drop_last();
        assert forall|i: int| 0 <= i < front.len() implies well_formed(#[trigger] front[i]) by {
            assert(front[i] == body[i]);
        }
        assert(well_formed(body[body.len() - 1]));
        lemma_resolve_each_readable(front, registry, scope, next);
        lemma_resolve_readable(body.last(), registry, scope, next + binders_each(front));
    }
}

/// Resolution changes no structure: an expression without alias references,
/// resolved and taken without its tokens, is the expression.
pub proof fn lemma_resolve_erased(
    e: Expr,
    registry: Map<Seq<char>, TExpr>,
    scope: Map<char, Token>,
    next: nat,
)
    requires
        link_free(e),
    ensures
        resolve(e, registry, scope, next) is Ok,
        erased(resolve(e, registry, scope, next)->Ok_0) == e,
    decreases e,
{
    lemma_link_free_resolves(e, registry, scope, next);
    match e {
        Expr::Function { parameter, body } => {
            let inner = scope.insert(parameter, Token::Bound(next as u64));
            lemma_resolve_each_erased(body, registry, inner, next + 1);
        },
        Expr::Variable { letter } => {},
        Expr::AliasLink { name } => {},
    }
}

/// [`lemma_resolve_erased`] for a run of expressions.
pub proof fn lemma_resolve_each_erased(
    body: Seq<Expr>,
    registry: Map<Seq<char>, TExpr>,
    scope: Map<char, Token>,
    next: nat,
)
    requires
        forall|i: int| 0 <= i < body.len() ==> link_free(#[trigger] body[i]),
    ensures
        resolve_each(body, registry, scope, next) is Ok,
        erased_each(resolve_each(body, registry, scope, next)->Ok_0) == body,
    decreases body,
{
    if body.len() > 0 {
        let front = body.drop_last();
        let middle = next + binders_each(front);
        assert forall|i: int| 0 <= i < front.len() implies link_free(#[trigger] front[i]) by {
            assert(front[i] == body[i]);
        }
        assert(link_free(body[body.len() - 1]));
        lemma_resolve_each_erased(front, registry, scope, next);
        lemma_resolve_erased(body.last(), registry, scope, middle);
        let resolved_front = resolve_each(front, registry, scope, next)->Ok_0;
        let resolved_last = resolve(body.last(), registry, scope, middle)->Ok_0;
        assert(erased_each(resolved_front.push(resolved_last)) =~= erased_each(
            resolved_front,
        ).push(erased(resolved_last)));
        assert(front.push(body.last()) =~= body);
    } else {
        assert(erased_each(Seq::<TExpr>::empty()) =~= body);
    }
}

/// Read, resolve, display, read again: a well-formed expression without
/// alias references comes back as it was.
pub proof fn lemma_resolved_display_reads_back(
    e: Expr,
    registry: Map<Seq<char>, TExpr>,
    scope: Map<char, Token>,
    next: nat,
)
    requires
        well_formed(e),
        link_free(e),
    ensures
        resolve(e, registry, scope, next) is Ok,
        expression(rendered(resolve(e, registry, scope, next)->Ok_0), 0) == Ok::<
            (Expr, int),
            Failure,
        >((e, rendered(resolve(e, registry, scope, next)->Ok_0).len() as int)),
{
    lemma_resolve_erased(e, registry, scope, next);
    lemma_link_free_resolves(e, registry, scope, next);
    lemma_resolve_readable(e, Map::empty(), scope, next);
    lemma_display_reads_back(resolve(e, registry, scope, next)->Ok_0);
}

} // verus!
