//! What holds of every syntax tree that the grammar gives.
//!
//! Its letters are lowercase, its names are uppercase and not empty, and no
//! function in it has an empty body. The text holds at least one character
//! for each binder that is read from it, so the binders of a parsed program
//! can always be counted.

use crate::grammar::{
    alias, alias_link, aliases, at, atom, expression, expressions, file, function, is_lower,
    is_upper, item, items, lemma_alias_consumes, lemma_expressions_consumes, lemma_item_consumes, lemma_skip_spaces_bounds,
    lemma_skip_upper_bounds, lemma_spaced_item_consumes, skip_spaces, skip_upper, spaced_item,
    spaced_items,
};
use crate::token::{binders, binders_each, total_binders};
use crate::types::{Definition, Expr};
use vstd::prelude::*;

verus! {

/// The binders of a run with one expression put in front.
pub proof fn lemma_binders_each_cons(first: Expr, rest: Seq<Expr>)
    ensures
        binders_each(seq![first] + rest) == binders(first) + binders_each(rest),
    decreases rest.len(),
{
    let all = seq![first] + rest;
    if rest.len() == 0 {
        assert(all.drop_last() =~= rest);
        assert(all.last() == first);
        assert(binders_each(rest) == 0);
    } else {
        assert(all.drop_last() =~= seq![first] + rest.drop_last());
        assert(all.last() == rest.last());
        lemma_binders_each_cons(first, rest.drop_last());
    }
}

/// The binders of a program with one definition put in front.
pub proof fn lemma_total_binders_cons(first: Definition, rest: Seq<Definition>)
    ensures
        total_binders(seq![first] + rest) == binders(first.expression) + total_binders(rest),
    decreases rest.len(),
{
    let all = seq![first] + rest;
    if rest.len() == 0 {
        assert(all.drop_last() =~= rest);
        assert(all.last() == first);
        assert(total_binders(rest) == 0);
    } else {
        assert(all.drop_last() =~= seq![first] + rest.drop_last());
        assert(all.last() == rest.last());
        lemma_total_binders_cons(first, rest.drop_last());
    }
}

/// A function that is read has no more binders than characters.
pub proof fn lemma_function_binders(s: Seq<char>, pos: int)
    requires
        function(s, pos) is Ok,
    ensures
        binders(function(s, pos)->Ok_0.0) <= function(s, pos)->Ok_0.1 - pos,
    decreases s.len() - pos, 0int,
{
    lemma_expressions_binders(s, pos + 3);
}

/// An atom that is read has no more binders than characters.
pub proof fn lemma_atom_binders(s: Seq<char>, pos: int)
    requires
        atom(s, pos) is Ok,
    ensures
        binders(atom(s, pos)->Ok_0.0) <= atom(s, pos)->Ok_0.1 - pos,
    decreases s.len() - pos, 1int,
{
    if function(s, pos) is Ok {
        lemma_function_binders(s, pos);
    } else {
        lemma_skip_upper_bounds(s, pos);
    }
}

/// An expression that is read has no more binders than characters.
pub proof fn lemma_expression_binders(s: Seq<char>, pos: int)
    requires
        expression(s, pos) is Ok,
    ensures
        binders(expression(s, pos)->Ok_0.0) <= expression(s, pos)->Ok_0.1 - pos,
    decreases s.len() - pos, 2int,
{
    if at(s, pos, '(') && atom(s, pos + 1) is Ok {
        lemma_atom_binders(s, pos + 1);
    }
    if atom(s, pos) is Ok {
        lemma_atom_binders(s, pos);
    }
}

/// An item that is read has no more binders than characters.
pub proof fn lemma_item_binders(s: Seq<char>, pos: int)
    requires
        item(s, pos) is Ok,
    ensures
        binders(item(s, pos)->Ok_0.0) <= item(s, pos)->Ok_0.1 - pos,
    decreases s.len() - pos, 3int,
{
    if at(s, pos, '(') {
        lemma_skip_spaces_bounds(s, pos + 1);
        let inner = skip_spaces(s, pos + 1);
        if expression(s, inner) is Ok {
            lemma_expression_binders(s, inner);
            lemma_skip_spaces_bounds(s, expression(s, inner)->Ok_0.1);
        }
    }
    if expression(s, pos) is Ok {
        lemma_expression_binders(s, pos);
    }
}

/// An item that is read with the spaces around it has no more binders than
/// characters.
pub proof fn lemma_spaced_item_binders(s: Seq<char>, pos: int)
    requires
        spaced_item(s, pos) is Ok,
    ensures
        binders(spaced_item(s, pos)->Ok_0.0) <= spaced_item(s, pos)->Ok_0.1 - pos,
    decreases s.len() - pos, 4int,
{
    lemma_skip_spaces_bounds(s, pos);
    let start = skip_spaces(s, pos);
    lemma_item_binders(s, start);
    lemma_skip_spaces_bounds(s, item(s, start)->Ok_0.1);
}

/// A run of items has no more binders than characters.
pub proof fn lemma_items_binders(s: Seq<char>, pos: int)
    requires
        0 <= pos <= s.len(),
    ensures
        binders_each(items(s, pos).0) <= items(s, pos).1 - pos,
    decreases s.len() - pos, 5int,
{
    if item(s, pos) is Ok {
        let (found, after) = item(s, pos)->Ok_0;
        lemma_item_consumes(s, pos);
        lemma_item_binders(s, pos);
        lemma_items_binders(s, after);
        lemma_binders_each_cons(found, items(s, after).0);
    }
}

/// A run of items with spaces around them has no more binders than
/// characters.
pub proof fn lemma_spaced_items_binders(s: Seq<char>, pos: int)
    requires
        0 <= pos <= s.len(),
    ensures
        binders_each(spaced_items(s, pos).0) <= spaced_items(s, pos).1 - pos,
    decreases s.len() - pos, 5int,
{
    if spaced_item(s, pos) is Ok {
        let (found, after) = spaced_item(s, pos)->Ok_0;
        lemma_spaced_item_consumes(s, pos);
        lemma_spaced_item_binders(s, pos);
        lemma_spaced_items_binders(s, after);
        lemma_binders_each_cons(found, spaced_items(s, after).0);
    }
}

/// A body that is read has no more binders than characters.
pub proof fn lemma_expressions_binders(s: Seq<char>, pos: int)
    requires
        expressions(s, pos) is Ok,
    ensures
        binders_each(expressions(s, pos)->Ok_0.0) <= expressions(s, pos)->Ok_0.1 - pos,
    decreases s.len() - pos, 6int,
{
    if at(s, pos, '(') && spaced_item(s, pos + 1) is Ok {
        lemma_spaced_items_binders(s, pos + 1);
    }
    if item(s, pos) is Ok {
        lemma_item_consumes(s, pos);
        lemma_items_binders(s, pos);
    }
}

/// A definition that is read has no more binders than characters.
pub proof fn lemma_alias_binders(s: Seq<char>, pos: int)
    requires
        alias(s, pos) is Ok,
    ensures
        binders(alias(s, pos)->Ok_0.0.expression) <= alias(s, pos)->Ok_0.1 - pos,
{
    lemma_skip_spaces_bounds(s, pos);
    let start = skip_spaces(s, pos);
    lemma_skip_spaces_bounds(s, start + 4);
    let name_at = skip_spaces(s, start + 4);
    lemma_skip_upper_bounds(s, name_at);
    let after_name = alias_link(s, name_at)->Ok_0.1;
    lemma_skip_spaces_bounds(s, after_name);
    let equals = skip_spaces(s, after_name);
    lemma_skip_spaces_bounds(s, equals + 1);
    let expression_at = skip_spaces(s, equals + 1);
    lemma_expression_binders(s, expression_at);
    lemma_skip_spaces_bounds(s, expression(s, expression_at)->Ok_0.1);
}

/// The definitions read from `pos` on end inside the text and have no more
/// binders than characters.
pub proof fn lemma_aliases_binders(s: Seq<char>, pos: int)
    requires
        0 <= pos <= s.len(),
    ensures
        pos <= aliases(s, pos).1 <= s.len(),
        total_binders(aliases(s, pos).0) <= aliases(s, pos).1 - pos,
    decreases s.len() - pos,
{
    if alias(s, pos) is Ok {
        let (found, after) = alias(s, pos)->Ok_0;
        lemma_alias_consumes(s, pos);
        lemma_alias_binders(s, pos);
        lemma_aliases_binders(s, after);
        lemma_total_binders_cons(found, aliases(s, after).0);
    }
}

/// The definitions of a text have no more binders than the text has
/// characters.
pub proof fn lemma_file_binders(s: Seq<char>)
    ensures
        total_binders(file(s).0) <= s.len(),
        0 <= file(s).1 <= s.len(),
{
    lemma_skip_spaces_bounds(s, 0);
    lemma_aliases_binders(s, skip_spaces(s, 0));
    lemma_skip_spaces_bounds(s, aliases(s, skip_spaces(s, 0)).1);
}

/// Whether `name` is one or more uppercase letters.
pub open spec fn well_named(name: Seq<char>) -> bool {
    name.len() > 0 && forall|i: int| 0 <= i < name.len() ==> is_upper(#[trigger] name[i])
}

/// Whether `e` has the shape of a syntax tree: every letter is lowercase,
/// every name is one or more uppercase letters, and every function has at
/// least one expression in its body.
pub open spec fn well_formed(e: Expr) -> bool
    decreases e,
{
    match e {
        Expr::Function { parameter, body } => is_lower(parameter) && well_formed_each(body),
        Expr::Variable { letter } => is_lower(letter),
        Expr::AliasLink { name } => well_named(name),
    }
}

/// Whether `body` is one or more well-formed expressions.
pub open spec fn well_formed_each(body: Seq<Expr>) -> bool
    decreases body,
{
    body.len() > 0 && forall|i: int| 0 <= i < body.len() ==> well_formed(#[trigger] body[i])
}

/// A name that is read is one or more uppercase letters.
pub proof fn lemma_alias_link_well_named(s: Seq<char>, pos: int)
    requires
        alias_link(s, pos) is Ok,
    ensures
        well_named(alias_link(s, pos)->Ok_0.0),
{
    lemma_skip_upper_bounds(s, pos);
    let end = skip_upper(s, pos);
    let name = s.subrange(pos, end);
    assert(skip_upper(s, pos) == skip_upper(s, pos + 1));
    lemma_skip_upper_bounds(s, pos + 1);
    assert forall|i: int| 0 <= i < name.len() implies is_upper(#[trigger] name[i]) by {
        assert(name[i] == s[pos + i]);
    }
}

/// A function that is read is well formed.
pub proof fn lemma_function_well_formed(s: Seq<char>, pos: int)
    requires
        function(s, pos) is Ok,
    ensures
        well_formed(function(s, pos)->Ok_0.0),
    decreases s.len() - pos, 0int,
{
    lemma_expressions_well_formed(s, pos + 3);
}

/// An atom that is read is well formed.
pub proof fn lemma_atom_well_formed(s: Seq<char>, pos: int)
    requires
        atom(s, pos) is Ok,
    ensures
        well_formed(atom(s, pos)->Ok_0.0),
    decreases s.len() - pos, 1int,
{
    if function(s, pos) is Ok {
        lemma_function_well_formed(s, pos);
    } else if alias_link(s, pos) is Ok {
        lemma_alias_link_well_named(s, pos);
    }
}

/// An expression that is read is well formed.
pub proof fn lemma_expression_well_formed(s: Seq<char>, pos: int)
    requires
        expression(s, pos) is Ok,
    ensures
        well_formed(expression(s, pos)->Ok_0.0),
    decreases s.len() - pos, 2int,
{
    if at(s, pos, '(') && atom(s, pos + 1) is Ok {
        lemma_atom_well_formed(s, pos + 1);
    }
    if atom(s, pos) is Ok {
        lemma_atom_well_formed(s, pos);
    }
}

/// An item that is read is well formed.
pub proof fn lemma_item_well_formed(s: Seq<char>, pos: int)
    requires
        item(s, pos) is Ok,
    ensures
        well_formed(item(s, pos)->Ok_0.0),
    decreases s.len() - pos, 3int,
{
    if at(s, pos, '(') {
        lemma_skip_spaces_bounds(s, pos + 1);
        let inner = skip_spaces(s, pos + 1);
        if expression(s, inner) is Ok {
            lemma_expression_well_formed(s, inner);
        }
    }
    if expression(s, pos) is Ok {
        lemma_expression_well_formed(s, pos);
    }
}

/// An item that is read with the spaces around it is well formed.
pub proof fn lemma_spaced_item_well_formed(s: Seq<char>, pos: int)
    requires
        spaced_item(s, pos) is Ok,
    ensures
        well_formed(spaced_item(s, pos)->Ok_0.0),
    decreases s.len() - pos, 4int,
{
    lemma_skip_spaces_bounds(s, pos);
    lemma_item_well_formed(s, skip_spaces(s, pos));
}

/// The items of a run are well formed.
pub proof fn lemma_items_well_formed(s: Seq<char>, pos: int)
    ensures
        forall|i: int| 0 <= i < items(s, pos).0.len() ==> well_formed(#[trigger] items(s, pos).0[i]),
    decreases s.len() - pos, 5int,
{
    if item(s, pos) is Ok {
        let (found, after) = item(s, pos)->Ok_0;
        if pos < after <= s.len() {
            lemma_item_well_formed(s, pos);
            lemma_items_well_formed(s, after);
            let rest = items(s, after).0;
            assert forall|i: int| 0 <= i < items(s, pos).0.len() implies well_formed(
                #[trigger] items(s, pos).0[i],
            ) by {
                if i > 0 {
                    assert(items(s, pos).0[i] == rest[i - 1]);
                }
            }
        }
    }
}

/// The items of a run with spaces around them are well formed.
pub proof fn lemma_spaced_items_well_formed(s: Seq<char>, pos: int)
    ensures
        forall|i: int|
            0 <= i < spaced_items(s, pos).0.len() ==> well_formed(
                #[trigger] spaced_items(s, pos).0[i],
            ),
    decreases s.len() - pos, 5int,
{
    if spaced_item(s, pos) is Ok {
        let (found, after) = spaced_item(s, pos)->Ok_0;
        if pos < after <= s.len() {
            lemma_spaced_item_well_formed(s, pos);
            lemma_spaced_items_well_formed(s, after);
            let rest = spaced_items(s, after).0;
            assert forall|i: int| 0 <= i < spaced_items(s, pos).0.len() implies well_formed(
                #[trigger] spaced_items(s, pos).0[i],
            ) by {
                if i > 0 {
                    assert(spaced_items(s, pos).0[i] == rest[i - 1]);
                }
            }
        }
    }
}

/// A body that is read is one or more well-formed expressions.
pub proof fn lemma_expressions_well_formed(s: Seq<char>, pos: int)
    requires
        expressions(s, pos) is Ok,
    ensures
        well_formed_each(expressions(s, pos)->Ok_0.0),
    decreases s.len() - pos, 6int,
{
    lemma_expressions_consumes(s, pos);
    let body = expressions(s, pos)->Ok_0.0;
    if at(s, pos, '(') && spaced_item(s, pos + 1) is Ok && at(s, spaced_items(s, pos + 1).1, ')') {
        lemma_spaced_items_well_formed(s, pos + 1);
        assert(body == spaced_items(s, pos + 1).0);
    } else {
        lemma_items_well_formed(s, pos);
        assert(body == items(s, pos).0);
    }
}

/// A definition that is read has a name of one or more uppercase letters
/// and a well-formed expression.
pub proof fn lemma_alias_well_formed(s: Seq<char>, pos: int)
    requires
        alias(s, pos) is Ok,
    ensures
        well_named(alias(s, pos)->Ok_0.0.name),
        well_formed(alias(s, pos)->Ok_0.0.expression),
{
    let start = skip_spaces(s, pos);
    let name_at = skip_spaces(s, start + 4);
    lemma_alias_link_well_named(s, name_at);
    let equals = skip_spaces(s, alias_link(s, name_at)->Ok_0.1);
    lemma_expression_well_formed(s, skip_spaces(s, equals + 1));
}

/// The definitions read from `pos` on have names of one or more uppercase
/// letters and well-formed expressions.
pub proof fn lemma_aliases_well_formed(s: Seq<char>, pos: int)
    requires
        0 <= pos <= s.len(),
    ensures
        forall|i: int|
            0 <= i < aliases(s, pos).0.len() ==> well_named((#[trigger] aliases(s, pos).0[i]).name)
                && well_formed(aliases(s, pos).0[i].expression),
    decreases s.len() - pos,
{
    if alias(s, pos) is Ok {
        let (found, after) = alias(s, pos)->Ok_0;
        lemma_alias_consumes(s, pos);
        lemma_alias_well_formed(s, pos);
        lemma_aliases_well_formed(s, after);
        let rest = aliases(s, after).0;
        assert forall|i: int| 0 <= i < aliases(s, pos).0.len() implies well_named(
            (#[trigger] aliases(s, pos).0[i]).name,
        ) && well_formed(aliases(s, pos).0[i].expression) by {
            if i > 0 {
                assert(aliases(s, pos).0[i] == rest[i - 1]);
            }
        }
    }
}

/// Every definition of a text has a name of one or more uppercase letters
/// and a well-formed expression.
pub proof fn lemma_file_well_formed(s: Seq<char>)
    ensures
        forall|i: int|
            0 <= i < file(s).0.len() ==> well_named((#[trigger] file(s).0[i]).name) && well_formed(
                file(s).0[i].expression,
            ),
{
    lemma_skip_spaces_bounds(s, 0);
    lemma_aliases_well_formed(s, skip_spaces(s, 0));
}

} // verus!
