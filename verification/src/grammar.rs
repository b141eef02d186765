//! The grammar, as functions from a text and a position in it to what is read
//! there.
//!
//! ```text
//! variable    := a lowercase letter
//! alias_link  := one or more uppercase letters
//! function    := ('λ' | '\') variable '.' expressions
//! expression  := '(' atom ')' | atom              atom := function | alias_link | variable
//! item        := '(' expression ')' | expression  (spaces may follow '(' and precede ')')
//! expressions := '(' one or more items, spaces around each ')' | one or more items
//! alias       := 'let ' alias_link '=' expression (spaces around each part)
//! file        := zero or more aliases
//! ```
//!
//! Alternatives are tried in the order written and the first that reads
//! something wins; a repetition reads as many as it can. Where every
//! alternative fails, the failure of the last one is reported.

use crate::types::{Definition, Expr};
use vstd::prelude::*;

verus! {

/// A rule of the grammar.
#[derive(Clone, Copy, Debug, PartialEq, Eq, Structural)]
pub enum Rule {
    Variable,
    Function,
    AliasLink,
    Expression,
    Expressions,
    Alias,
    File,
}

/// What a rule needed where it failed.
#[derive(Clone, Copy, Debug, PartialEq, Eq, Structural)]
pub enum Expected {
    /// A lowercase letter.
    Variable,
    /// An uppercase letter.
    AliasLink,
    /// `λ` or `\`.
    Lambda,
    /// `.` after a function's parameter.
    Dot,
    /// `=` after a definition's name.
    Equals,
    /// `let` and a space.
    Let,
}

/// A failure to read: where, what was needed there, and the rules that were
/// being read, innermost first.
pub struct Failure {
    pub offset: int,
    pub expected: Expected,
    pub trace: Seq<Rule>,
}

impl Failure {
    /// This failure as seen from the enclosing `rule`.
    pub open spec fn within(self, rule: Rule) -> Failure {
        Failure { offset: self.offset, expected: self.expected, trace: self.trace.push(rule) }
    }
}

/// The failure of `rule` itself at `offset`.
pub open spec fn failure(offset: int, expected: Expected, rule: Rule) -> Failure {
    Failure { offset, expected, trace: seq![rule] }
}

pub open spec fn is_space(c: char) -> bool {
    c == ' ' || c == '\t' || c == '\r' || c == '\n'
}

pub open spec fn is_lower(c: char) -> bool {
    'a' <= c <= 'z'
}

pub open spec fn is_upper(c: char) -> bool {
    'A' <= c <= 'Z'
}

pub open spec fn is_lambda(c: char) -> bool {
    c == 'λ' || c == '\\'
}

/// Whether the character at `pos` is `c`.
pub open spec fn at(s: Seq<char>, pos: int, c: char) -> bool {
    0 <= pos < s.len() && s[pos] == c
}

/// The first position from `pos` on that holds no space.
pub open spec fn skip_spaces(s: Seq<char>, pos: int) -> int
    decreases s.len() - pos,
{
    if 0 <= pos < s.len() && is_space(s[pos]) {
        skip_spaces(s, pos + 1)
    } else {
        pos
    }
}

/// The first position from `pos` on that holds no uppercase letter.
pub open spec fn skip_upper(s: Seq<char>, pos: int) -> int
    decreases s.len() - pos,
{
    if 0 <= pos < s.len() && is_upper(s[pos]) {
        skip_upper(s, pos + 1)
    } else {
        pos
    }
}

/// Skipping spaces moves forward, stays inside the text, passes spaces only
/// and stops before what is no space.
pub proof fn lemma_skip_spaces_bounds(s: Seq<char>, pos: int)
    ensures
        pos <= skip_spaces(s, pos),
        skip_spaces(s, pos) <= s.len() || skip_spaces(s, pos) == pos,
        !(0 <= skip_spaces(s, pos) < s.len() && is_space(s[skip_spaces(s, pos)])),
        forall|i: int| pos <= i < skip_spaces(s, pos) ==> is_space(#[trigger] s[i]),
    decreases s.len() - pos,
{
    if 0 <= pos < s.len() && is_space(s[pos]) {
        lemma_skip_spaces_bounds(s, pos + 1);
    }
}

/// Skipping uppercase letters moves forward, stays inside the text, passes
/// uppercase letters only and stops before what is none.
pub proof fn lemma_skip_upper_bounds(s: Seq<char>, pos: int)
    ensures
        pos <= skip_upper(s, pos),
        skip_upper(s, pos) <= s.len() || skip_upper(s, pos) == pos,
        !(0 <= skip_upper(s, pos) < s.len() && is_upper(s[skip_upper(s, pos)])),
        forall|i: int| pos <= i < skip_upper(s, pos) ==> is_upper(#[trigger] s[i]),
    decreases s.len() - pos,
{
    if 0 <= pos < s.len() && is_upper(s[pos]) {
        lemma_skip_upper_bounds(s, pos + 1);
    }
}

/// `variable`: the lowercase letter at `pos`.
pub open spec fn variable(s: Seq<char>, pos: int) -> Result<(char, int), Failure> {
    if 0 <= pos < s.len() && is_lower(s[pos]) {
        Ok((s[pos], pos + 1))
    } else {
        Err(failure(pos, Expected::Variable, Rule::Variable))
    }
}

/// `alias_link`: the longest run of uppercase letters from `pos`, if there is
/// one.
pub open spec fn alias_link(s: Seq<char>, pos: int) -> Result<(Seq<char>, int), Failure> {
    if 0 <= pos < s.len() && is_upper(s[pos]) {
        Ok((s.subrange(pos, skip_upper(s, pos)), skip_upper(s, pos)))
    } else {
        Err(failure(pos, Expected::AliasLink, Rule::AliasLink))
    }
}

/// `function`: a lambda marker, the parameter, a dot and the body.
pub open spec fn function(s: Seq<char>, pos: int) -> Result<(Expr, int), Failure>
    decreases s.len() - pos, 0int,
{
    if !(0 <= pos < s.len() && is_lambda(s[pos])) {
        Err(failure(pos, Expected::Lambda, Rule::Function))
    } else {
        match variable(s, pos + 1) {
            Err(inner) => Err(inner.within(Rule::Function)),
            Ok((parameter, dot)) => if !at(s, dot, '.') {
                Err(failure(dot, Expected::Dot, Rule::Function))
            } else {
                match expressions(s, dot + 1) {
                    Err(inner) => Err(inner.within(Rule::Function)),
                    Ok((body, end)) => Ok((Expr::Function { parameter, body }, end)),
                }
            },
        }
    }
}

/// A function, else a reference, else a variable.
pub open spec fn atom(s: Seq<char>, pos: int) -> Result<(Expr, int), Failure>
    decreases s.len() - pos, 1int,
{
    match function(s, pos) {
        Ok(found) => Ok(found),
        Err(_) => match alias_link(s, pos) {
            Ok((name, end)) => Ok((Expr::AliasLink { name }, end)),
            Err(_) => match variable(s, pos) {
                Ok((letter, end)) => Ok((Expr::Variable { letter }, end)),
                Err(inner) => Err(inner),
            },
        },
    }
}

/// `expression`: an atom between parentheses, else an atom.
pub open spec fn expression(s: Seq<char>, pos: int) -> Result<(Expr, int), Failure>
    decreases s.len() - pos, 2int,
{
    let wrapped = if at(s, pos, '(') {
        match atom(s, pos + 1) {
            Ok((found, close)) => if at(s, close, ')') {
                Some((found, close + 1))
            } else {
                None
            },
            Err(_) => None,
        }
    } else {
        None
    };
    match wrapped {
        Some(found) => Ok(found),
        None => match atom(s, pos) {
            Ok(found) => Ok(found),
            Err(inner) => Err(inner.within(Rule::Expression)),
        },
    }
}

/// One expression of a body: an expression between parentheses, with spaces
/// allowed inside them, else an expression.
pub open spec fn item(s: Seq<char>, pos: int) -> Result<(Expr, int), Failure>
    decreases s.len() - pos, 3int,
{
    let wrapped = if at(s, pos, '(') {
        proof {
            lemma_skip_spaces_bounds(s, pos + 1);
        }
        match expression(s, skip_spaces(s, pos + 1)) {
            Ok((found, after)) => {
                let close = skip_spaces(s, after);
                if at(s, close, ')') {
                    Some((found, close + 1))
                } else {
                    None
                }
            },
            Err(_) => None,
        }
    } else {
        None
    };
    match wrapped {
        Some(found) => Ok(found),
        None => expression(s, pos),
    }
}

/// An [`item`] with spaces allowed before and after it.
pub open spec fn spaced_item(s: Seq<char>, pos: int) -> Result<(Expr, int), Failure>
    decreases s.len() - pos, 4int,
{
    proof {
        lemma_skip_spaces_bounds(s, pos);
    }
    match item(s, skip_spaces(s, pos)) {
        Ok((found, after)) => Ok((found, skip_spaces(s, after))),
        Err(inner) => Err(inner),
    }
}

/// As many [`item`]s as can be read from `pos` on, and where they end.
///
/// An item that is read always ends after `pos` and inside the text
/// ([`lemma_item_consumes`]); the test for it is what lets this definition
/// call itself.
pub open spec fn items(s: Seq<char>, pos: int) -> (Seq<Expr>, int)
    decreases s.len() - pos, 5int,
{
    match item(s, pos) {
        Ok((found, after)) => if pos < after <= s.len() {
            let rest = items(s, after);
            (seq![found] + rest.0, rest.1)
        } else {
            (Seq::empty(), pos)
        },
        Err(_) => (Seq::empty(), pos),
    }
}

/// As many [`spaced_item`]s as can be read from `pos` on, and where they end.
/// The test on where an item ends always holds here too
/// ([`lemma_spaced_item_consumes`]).
pub open spec fn spaced_items(s: Seq<char>, pos: int) -> (Seq<Expr>, int)
    decreases s.len() - pos, 5int,
{
    match spaced_item(s, pos) {
        Ok((found, after)) => if pos < after <= s.len() {
            let rest = spaced_items(s, after);
            (seq![found] + rest.0, rest.1)
        } else {
            (Seq::empty(), pos)
        },
        Err(_) => (Seq::empty(), pos),
    }
}

/// `expressions`: the body of a function. One or more items between one pair
/// of parentheses, with spaces allowed around each; else one or more items
/// with nothing between them.
pub open spec fn expressions(s: Seq<char>, pos: int) -> Result<(Seq<Expr>, int), Failure>
    decreases s.len() - pos, 6int,
{
    let wrapped = if at(s, pos, '(') {
        match spaced_item(s, pos + 1) {
            Ok(_) => {
                let (body, close) = spaced_items(s, pos + 1);
                if at(s, close, ')') {
                    Some((body, close + 1))
                } else {
                    None
                }
            },
            Err(_) => None,
        }
    } else {
        None
    };
    match wrapped {
        Some(found) => Ok(found),
        None => match item(s, pos) {
            Ok(_) => Ok(items(s, pos)),
            Err(inner) => Err(inner.within(Rule::Expressions)),
        },
    }
}

/// Whether `let` and a space stand at `pos`.
pub open spec fn at_let(s: Seq<char>, pos: int) -> bool {
    at(s, pos, 'l') && at(s, pos + 1, 'e') && at(s, pos + 2, 't') && at(s, pos + 3, ' ')
}

/// `alias`: `let`, a name, `=` and an expression, with spaces allowed around
/// each part.
pub open spec fn alias(s: Seq<char>, pos: int) -> Result<(Definition, int), Failure> {
    let start = skip_spaces(s, pos);
    if !at_let(s, start) {
        Err(failure(start, Expected::Let, Rule::Alias))
    } else {
        match alias_link(s, skip_spaces(s, start + 4)) {
            Err(inner) => Err(inner.within(Rule::Alias)),
            Ok((name, after_name)) => {
                let equals = skip_spaces(s, after_name);
                if !at(s, equals, '=') {
                    Err(failure(equals, Expected::Equals, Rule::Alias))
                } else {
                    match expression(s, skip_spaces(s, equals + 1)) {
                        Err(inner) => Err(inner.within(Rule::Alias)),
                        Ok((found, after)) => Ok(
                            (Definition { name, expression: found }, skip_spaces(s, after)),
                        ),
                    }
                }
            },
        }
    }
}

/// As many definitions as can be read from `pos` on, where they end, and the
/// failure that ended them.
pub open spec fn aliases(s: Seq<char>, pos: int) -> (Seq<Definition>, int, Failure)
    decreases s.len() - pos,
{
    match alias(s, pos) {
        Ok((found, after)) => {
            proof {
                lemma_alias_consumes(s, pos);
            }
            let rest = aliases(s, after);
            (seq![found] + rest.0, rest.1, rest.2)
        },
        Err(why) => (Seq::empty(), pos, why),
    }
}

/// `file`: the definitions of a text, where they end, and the failure that
/// ended them.
pub open spec fn file(s: Seq<char>) -> (Seq<Definition>, int, Failure) {
    let (definitions, end, why) = aliases(s, skip_spaces(s, 0));
    (definitions, skip_spaces(s, end), why)
}

/// A text is a program if its definitions end where the text ends. If they
/// end before, the text is refused, with the failure of the definition that
/// could not be read there.
pub open spec fn program(s: Seq<char>) -> Result<Seq<Definition>, Failure> {
    let (definitions, end, why) = file(s);
    if end == s.len() {
        Ok(definitions)
    } else {
        Err(why.within(Rule::File))
    }
}

/// A function that is read takes at least one character and ends inside the
/// text.
pub proof fn lemma_function_consumes(s: Seq<char>, pos: int)
    requires
        function(s, pos) is Ok,
    ensures
        pos < function(s, pos)->Ok_0.1 <= s.len(),
    decreases s.len() - pos, 0int,
{
    lemma_expressions_consumes(s, pos + 3);
}

/// An atom that is read takes at least one character and ends inside the
/// text.
pub proof fn lemma_atom_consumes(s: Seq<char>, pos: int)
    requires
        atom(s, pos) is Ok,
    ensures
        pos < atom(s, pos)->Ok_0.1 <= s.len(),
    decreases s.len() - pos, 1int,
{
    if function(s, pos) is Ok {
        lemma_function_consumes(s, pos);
    } else if alias_link(s, pos) is Ok {
        lemma_skip_upper_bounds(s, pos + 1);
    }
}

/// An expression that is read takes at least one character and ends inside
/// the text.
pub proof fn lemma_expression_consumes(s: Seq<char>, pos: int)
    requires
        expression(s, pos) is Ok,
    ensures
        pos < expression(s, pos)->Ok_0.1 <= s.len(),
    decreases s.len() - pos, 2int,
{
    if at(s, pos, '(') && atom(s, pos + 1) is Ok {
        lemma_atom_consumes(s, pos + 1);
    }
    if atom(s, pos) is Ok {
        lemma_atom_consumes(s, pos);
    }
}

/// An item that is read takes at least one character and ends inside the
/// text.
pub proof fn lemma_item_consumes(s: Seq<char>, pos: int)
    requires
        item(s, pos) is Ok,
    ensures
        pos < item(s, pos)->Ok_0.1 <= s.len(),
    decreases s.len() - pos, 3int,
{
    if at(s, pos, '(') {
        lemma_skip_spaces_bounds(s, pos + 1);
        let inner = skip_spaces(s, pos + 1);
        if expression(s, inner) is Ok {
            lemma_expression_consumes(s, inner);
            lemma_skip_spaces_bounds(s, expression(s, inner)->Ok_0.1);
        }
    }
    if expression(s, pos) is Ok {
        lemma_expression_consumes(s, pos);
    }
}

/// An item that is read with the spaces around it takes at least one
/// character and ends inside the text.
pub proof fn lemma_spaced_item_consumes(s: Seq<char>, pos: int)
    requires
        spaced_item(s, pos) is Ok,
    ensures
        pos < spaced_item(s, pos)->Ok_0.1 <= s.len(),
    decreases s.len() - pos, 4int,
{
    lemma_skip_spaces_bounds(s, pos);
    let start = skip_spaces(s, pos);
    lemma_item_consumes(s, start);
    lemma_skip_spaces_bounds(s, item(s, start)->Ok_0.1);
}

/// A run of items ends inside the text, and holds an item wherever one can
/// be read.
pub proof fn lemma_items_bounds(s: Seq<char>, pos: int)
    requires
        0 <= pos <= s.len(),
    ensures
        pos <= items(s, pos).1 <= s.len(),
        item(s, pos) is Ok ==> items(s, pos).0.len() > 0 && pos < items(s, pos).1,
    decreases s.len() - pos, 5int,
{
    if item(s, pos) is Ok {
        lemma_item_consumes(s, pos);
        lemma_items_bounds(s, item(s, pos)->Ok_0.1);
    }
}

/// A run of items with spaces around them ends inside the text, and holds an
/// item wherever one can be read.
pub proof fn lemma_spaced_items_bounds(s: Seq<char>, pos: int)
    requires
        0 <= pos <= s.len(),
    ensures
        pos <= spaced_items(s, pos).1 <= s.len(),
        spaced_item(s, pos) is Ok ==> spaced_items(s, pos).0.len() > 0 && pos < spaced_items(
            s,
            pos,
        ).1,
    decreases s.len() - pos, 5int,
{
    if spaced_item(s, pos) is Ok {
        lemma_spaced_item_consumes(s, pos);
        lemma_spaced_items_bounds(s, spaced_item(s, pos)->Ok_0.1);
    }
}

/// A body that is read holds at least one expression, takes at least one
/// character and ends inside the text.
pub proof fn lemma_expressions_consumes(s: Seq<char>, pos: int)
    requires
        expressions(s, pos) is Ok,
    ensures
        expressions(s, pos)->Ok_0.0.len() > 0,
        pos < expressions(s, pos)->Ok_0.1 <= s.len(),
    decreases s.len() - pos, 6int,
{
    if at(s, pos, '(') && spaced_item(s, pos + 1) is Ok {
        lemma_spaced_items_bounds(s, pos + 1);
    }
    if item(s, pos) is Ok {
        if pos < 0 || pos > s.len() {
            lemma_item_consumes(s, pos);
        } else {
            lemma_items_bounds(s, pos);
        }
    }
}

/// A definition that is read takes at least one character and ends inside
/// the text.
pub proof fn lemma_alias_consumes(s: Seq<char>, pos: int)
    requires
        alias(s, pos) is Ok,
    ensures
        pos < alias(s, pos)->Ok_0.1 <= s.len(),
{
    lemma_skip_spaces_bounds(s, pos);
    let start = skip_spaces(s, pos);
    lemma_skip_spaces_bounds(s, start + 4);
    let name_at = skip_spaces(s, start + 4);
    lemma_skip_upper_bounds(s, name_at);
    let after_name = alias_link(s, name_at)->Ok_0.1;
    lemma_skip_spaces_bounds(s, after_name);
    let equals = skip_spaces(s, after_name);
    lemma_skip_spaces_bounds(s, equals + 1);
    let expression_at = skip_spaces(s, equals + 1);
    lemma_expression_consumes(s, expression_at);
    lemma_skip_spaces_bounds(s, expression(s, expression_at)->Ok_0.1);
}

} // verus!
