//! The parser: text in, syntax tree out.
//!
//! The language has four kinds of token: `λ` (or `\`), `.`, letters, and
//! parentheses. Everything is an expression `b` or `a(b)`, where `a` is a
//! function `λx.expression` and `b` is a function or a value.
//!
//! Each rule of [`crate::grammar`] has a function here that reads it at the
//! start of a text and hands back what it read and the text that is left.
//! [`parse`] reads a whole text.

use crate::grammar;
use crate::grammar::{Expected, Failure, Rule};
use crate::parsed::lemma_file_binders;
use crate::token::total_binders;
use crate::types::{
    alias_views, expression_views, lemma_function_view, Alias, AliasLink, Definition, Expr,
    Expression, Function, Variable,
};
use vstd::prelude::*;
use vstd::string::StrSliceExecFns;

verus! {

/// Why a text could not be read: the position of the character that did not
/// fit, counted in characters from the start of the text, what was needed
/// there, and the rules that were being read, innermost first.
#[derive(Debug, PartialEq, Eq)]
pub struct ParseError {
    pub offset: usize,
    pub expected: Expected,
    pub trace: Vec<Rule>,
}

impl View for ParseError {
    type V = Failure;

    open spec fn view(&self) -> Failure {
        Failure { offset: self.offset as int, expected: self.expected, trace: self.trace@ }
    }
}

impl ParseError {
    fn new(offset: usize, expected: Expected, rule: Rule) -> (error: Self)
        ensures
            error@ == grammar::failure(offset as int, expected, rule),
    {
        let mut trace: Vec<Rule> = Vec::new();
        trace.push(rule);
        proof {
            assert(trace@ =~= seq![rule]);
        }
        ParseError { offset, expected, trace }
    }

    fn within(self, rule: Rule) -> (error: Self)
        ensures
            error@ == self@.within(rule),
    {
        let mut trace = self.trace;
        trace.push(rule);
        ParseError { offset: self.offset, expected: self.expected, trace }
    }
}

/// A text with its characters laid out for reading by position.
struct Text<'a> {
    source: &'a str,
    chars: Vec<char>,
}

impl<'a> Text<'a> {
    spec fn wf(&self) -> bool {
        self.chars@ == self.source@
    }

    spec fn view(&self) -> Seq<char> {
        self.source@
    }

    fn open(source: &'a str) -> (text: Self)
        ensures
            text.wf(),
            text.view() == source@,
            text.source == source,
    {
        let mut chars: Vec<char> = Vec::new();
        for c in it: source.chars()
            invariant
                it.seq() == source@,
                chars@ == source@.take(it.index() as int),
        {
            chars.push(c);
            proof {
                assert(chars@ =~= source@.take(it.index() + 1));
            }
        }
        proof {
            assert(chars@ =~= source@);
        }
        Text { source, chars }
    }

    fn len(&self) -> (n: usize)
        requires
            self.wf(),
        ensures
            n == self.view().len(),
    {
        self.chars.len()
    }

    /// Whether the character at `pos` is `c`.
    fn at(&self, pos: usize, c: char) -> (found: bool)
        requires
            self.wf(),
        ensures
            found == grammar::at(self.view(), pos as int, c),
            found ==> pos < usize::MAX,
    {
        pos < self.chars.len() && self.chars[pos] == c
    }

    /// The text from `from` on.
    fn rest(&self, from: usize) -> (rest: &'a str)
        requires
            self.wf(),
            from <= self.view().len(),
        ensures
            rest@ == self.view().subrange(from as int, self.view().len() as int),
    {
        self.source.substring_char(from, self.chars.len())
    }

    fn skip_spaces(&self, pos: usize) -> (end: usize)
        requires
            self.wf(),
            pos <= self.view().len(),
        ensures
            end == grammar::skip_spaces(self.view(), pos as int),
            pos <= end <= self.view().len(),
    {
        let mut end = pos;
        while end < self.chars.len() && is_space(self.chars[end])
            invariant
                self.wf(),
                pos <= end <= self.view().len(),
                grammar::skip_spaces(self.view(), pos as int) == grammar::skip_spaces(
                    self.view(),
                    end as int,
                ),
            decreases self.chars.len() - end,
        {
            end += 1;
        }
        end
    }

    fn skip_upper(&self, pos: usize) -> (end: usize)
        requires
            self.wf(),
            pos <= self.view().len(),
        ensures
            end == grammar::skip_upper(self.view(), pos as int),
            pos <= end <= self.view().len(),
    {
        let mut end = pos;
        while end < self.chars.len() && is_upper(self.chars[end])
            invariant
                self.wf(),
                pos <= end <= self.view().len(),
                grammar::skip_upper(self.view(), pos as int) == grammar::skip_upper(
                    self.view(),
                    end as int,
                ),
            decreases self.chars.len() - end,
        {
            end += 1;
        }
        end
    }
}

fn is_space(c: char) -> (b: bool)
    ensures
        b == grammar::is_space(c),
{
    c == ' ' || c == '\t' || c == '\r' || c == '\n'
}

fn is_lower(c: char) -> (b: bool)
    ensures
        b == grammar::is_lower(c),
{
    'a' <= c && c <= 'z'
}

fn is_upper(c: char) -> (b: bool)
    ensures
        b == grammar::is_upper(c),
{
    'A' <= c && c <= 'Z'
}

fn is_lambda(c: char) -> (b: bool)
    ensures
        b == grammar::is_lambda(c),
{
    c == 'λ' || c == '\\'
}

/// The value of an outcome of reading one thing: what was read and where
/// reading stopped, or the failure.
pub open spec fn read<T: View>(result: Result<(T, usize), ParseError>) -> Result<
    (T::V, int),
    Failure,
> {
    match result {
        Ok((found, end)) => Ok((found@, end as int)),
        Err(error) => Err(error@),
    }
}

fn variable_at(text: &Text, pos: usize) -> (result: Result<(Variable, usize), ParseError>)
    requires
        text.wf(),
        pos <= text.view().len(),
    ensures
        read(result) == grammar::variable(text.view(), pos as int),
        result matches Ok((_, end)) ==> pos < end <= text.view().len(),
{
    if pos < text.chars.len() && is_lower(text.chars[pos]) {
        Ok((Variable(text.chars[pos]), pos + 1))
    } else {
        Err(ParseError::new(pos, Expected::Variable, Rule::Variable))
    }
}

fn alias_link_at(text: &Text, pos: usize) -> (result: Result<(AliasLink, usize), ParseError>)
    requires
        text.wf(),
        pos <= text.view().len(),
    ensures
        read(result) == grammar::alias_link(text.view(), pos as int),
        result matches Ok((_, end)) ==> pos < end <= text.view().len(),
{
    if pos < text.chars.len() && is_upper(text.chars[pos]) {
        let end = text.skip_upper(pos);
        proof {
            grammar::lemma_skip_upper_bounds(text.view(), pos + 1);
        }
        let name = text.source.substring_char(pos, end).to_owned();
        Ok((AliasLink(name), end))
    } else {
        Err(ParseError::new(pos, Expected::AliasLink, Rule::AliasLink))
    }
}

fn function_at(text: &Text, pos: usize) -> (result: Result<(Function, usize), ParseError>)
    requires
        text.wf(),
        pos <= text.view().len(),
    ensures
        read(result) == grammar::function(text.view(), pos as int),
        result matches Ok((_, end)) ==> pos < end <= text.view().len(),
    decreases text.view().len() - pos, 0int,
{
    if !(pos < text.chars.len() && is_lambda(text.chars[pos])) {
        return Err(ParseError::new(pos, Expected::Lambda, Rule::Function));
    }
    let (variable, dot) = match variable_at(text, pos + 1) {
        Ok(found) => found,
        Err(inner) => {
            return Err(inner.within(Rule::Function));
        },
    };
    if !text.at(dot, '.') {
        return Err(ParseError::new(dot, Expected::Dot, Rule::Function));
    }
    match expressions_at(text, dot + 1) {
        Ok((expression, end)) => {
            let function = Function::from_tuple((variable, expression));
            proof {
                lemma_function_view(function);
            }
            Ok((function, end))
        },
        Err(inner) => Err(inner.within(Rule::Function)),
    }
}

fn atom_at(text: &Text, pos: usize) -> (result: Result<(Expression, usize), ParseError>)
    requires
        text.wf(),
        pos <= text.view().len(),
    ensures
        read(result) == grammar::atom(text.view(), pos as int),
        result matches Ok((_, end)) ==> pos < end <= text.view().len(),
    decreases text.view().len() - pos, 1int,
{
    match function_at(text, pos) {
        Ok((function, end)) => {
            return Ok((Expression::Function(function), end));
        },
        Err(_) => {},
    }
    match alias_link_at(text, pos) {
        Ok((link, end)) => {
            return Ok((Expression::AliasLink(link), end));
        },
        Err(_) => {},
    }
    match variable_at(text, pos) {
        Ok((variable, end)) => Ok((Expression::Variable(variable), end)),
        Err(inner) => Err(inner),
    }
}

fn expression_at(text: &Text, pos: usize) -> (result: Result<(Expression, usize), ParseError>)
    requires
        text.wf(),
        pos <= text.view().len(),
    ensures
        read(result) == grammar::expression(text.view(), pos as int),
        result matches Ok((_, end)) ==> pos < end <= text.view().len(),
    decreases text.view().len() - pos, 2int,
{
    if text.at(pos, '(') {
        match atom_at(text, pos + 1) {
            Ok((found, close)) => {
                if text.at(close, ')') {
                    return Ok((found, close + 1));
                }
            },
            Err(_) => {},
        }
    }
    match atom_at(text, pos) {
        Ok(found) => Ok(found),
        Err(inner) => Err(inner.within(Rule::Expression)),
    }
}

fn item_at(text: &Text, pos: usize) -> (result: Result<(Expression, usize), ParseError>)
    requires
        text.wf(),
        pos <= text.view().len(),
    ensures
        read(result) == grammar::item(text.view(), pos as int),
        result matches Ok((_, end)) ==> pos < end <= text.view().len(),
    decreases text.view().len() - pos, 3int,
{
    if text.at(pos, '(') {
        let inner = text.skip_spaces(pos + 1);
        match expression_at(text, inner) {
            Ok((found, after)) => {
                let close = text.skip_spaces(after);
                if text.at(close, ')') {
                    return Ok((found, close + 1));
                }
            },
            Err(_) => {},
        }
    }
    expression_at(text, pos)
}

fn spaced_item_at(text: &Text, pos: usize) -> (result: Result<(Expression, usize), ParseError>)
    requires
        text.wf(),
        pos <= text.view().len(),
    ensures
        read(result) == grammar::spaced_item(text.view(), pos as int),
        result matches Ok((_, end)) ==> pos < end <= text.view().len(),
    decreases text.view().len() - pos, 4int,
{
    let start = text.skip_spaces(pos);
    match item_at(text, start) {
        Ok((found, after)) => Ok((found, text.skip_spaces(after))),
        Err(inner) => Err(inner),
    }
}

/// Reads items from `pos` on for as long as there are any, after those in
/// `body`.
fn items_at(text: &Text, pos: usize, body: Vec<Expression>) -> (result: (Vec<Expression>, usize))
    requires
        text.wf(),
        pos <= text.view().len(),
    ensures
        expression_views(result.0@) == expression_views(body@) + grammar::items(
            text.view(),
            pos as int,
        ).0,
        result.1 == grammar::items(text.view(), pos as int).1,
        pos <= result.1 <= text.view().len(),
    decreases text.view().len() - pos, 5int,
{
    let ghost start = expression_views(body@);
    let mut body = body;
    let mut end = pos;
    let mut more = true;
    while more
        invariant
            text.wf(),
            pos <= end <= text.view().len(),
            start + grammar::items(text.view(), pos as int).0 == expression_views(body@)
                + grammar::items(text.view(), end as int).0,
            grammar::items(text.view(), pos as int).1 == grammar::items(text.view(), end as int).1,
            !more ==> grammar::item(text.view(), end as int) is Err,
        decreases text.view().len() - end, if more { 1int } else { 0int },
    {
        match item_at(text, end) {
            Ok((found, after)) => {
                proof {
                    let rest = grammar::items(text.view(), after as int).0;
                    assert(expression_views(body@.push(found)) =~= expression_views(body@).push(
                        found@,
                    ));
                    assert(expression_views(body@) + (seq![found@] + rest) =~= expression_views(
                        body@,
                    ).push(found@) + rest);
                }
                body.push(found);
                end = after;
            },
            Err(_) => {
                more = false;
            },
        }
    }
    proof {
        assert(expression_views(body@) + Seq::<Expr>::empty() =~= expression_views(body@));
    }
    (body, end)
}

/// Reads items with spaces around them from `pos` on for as long as there
/// are any, after those in `body`.
fn spaced_items_at(text: &Text, pos: usize, body: Vec<Expression>) -> (result: (
    Vec<Expression>,
    usize,
))
    requires
        text.wf(),
        pos <= text.view().len(),
    ensures
        expression_views(result.0@) == expression_views(body@) + grammar::spaced_items(
            text.view(),
            pos as int,
        ).0,
        result.1 == grammar::spaced_items(text.view(), pos as int).1,
        pos <= result.1 <= text.view().len(),
    decreases text.view().len() - pos, 5int,
{
    let ghost start = expression_views(body@);
    let mut body = body;
    let mut end = pos;
    let mut more = true;
    while more
        invariant
            text.wf(),
            pos <= end <= text.view().len(),
            start + grammar::spaced_items(text.view(), pos as int).0 == expression_views(body@)
                + grammar::spaced_items(text.view(), end as int).0,
            grammar::spaced_items(text.view(), pos as int).1 == grammar::spaced_items(
                text.view(),
                end as int,
            ).1,
            !more ==> grammar::spaced_item(text.view(), end as int) is Err,
        decreases text.view().len() - end, if more { 1int } else { 0int },
    {
        match spaced_item_at(text, end) {
            Ok((found, after)) => {
                proof {
                    let rest = grammar::spaced_items(text.view(), after as int).0;
                    assert(expression_views(body@.push(found)) =~= expression_views(body@).push(
                        found@,
                    ));
                    assert(expression_views(body@) + (seq![found@] + rest) =~= expression_views(
                        body@,
                    ).push(found@) + rest);
                }
                body.push(found);
                end = after;
            },
            Err(_) => {
                more = false;
            },
        }
    }
    proof {
        assert(expression_views(body@) + Seq::<Expr>::empty() =~= expression_views(body@));
    }
    (body, end)
}

/// The value of an outcome of reading a body.
pub open spec fn read_each(result: Result<(Vec<Expression>, usize), ParseError>) -> Result<
    (Seq<Expr>, int),
    Failure,
> {
    match result {
        Ok((found, end)) => Ok((expression_views(found@), end as int)),
        Err(error) => Err(error@),
    }
}

fn expressions_at(text: &Text, pos: usize) -> (result: Result<(Vec<Expression>, usize), ParseError>)
    requires
        text.wf(),
        pos <= text.view().len(),
    ensures
        read_each(result) == grammar::expressions(text.view(), pos as int),
        result matches Ok((body, end)) ==> body.len() > 0 && pos < end <= text.view().len(),
    decreases text.view().len() - pos, 6int,
{
    if text.at(pos, '(') {
        match spaced_item_at(text, pos + 1) {
            Ok((first, after)) => {
                let mut body: Vec<Expression> = Vec::new();
                body.push(first);
                proof {
                    assert(expression_views(body@) =~= seq![first@]);
                }
                let (body, close) = spaced_items_at(text, after, body);
                proof {
                    assert(expression_views(body@).len() == body.len());
                }
                if text.at(close, ')') {
                    return Ok((body, close + 1));
                }
            },
            Err(_) => {},
        }
    }
    match item_at(text, pos) {
        Ok((first, after)) => {
            let mut body: Vec<Expression> = Vec::new();
            body.push(first);
            proof {
                assert(expression_views(body@) =~= seq![first@]);
            }
            let (body, end) = items_at(text, after, body);
            proof {
                assert(expression_views(body@).len() == body.len());
            }
            Ok((body, end))
        },
        Err(inner) => Err(inner.within(Rule::Expressions)),
    }
}

fn alias_at(text: &Text, pos: usize) -> (result: Result<(Alias, usize), ParseError>)
    requires
        text.wf(),
        pos <= text.view().len(),
    ensures
        read(result) == grammar::alias(text.view(), pos as int),
        result matches Ok((_, end)) ==> pos < end <= text.view().len(),
{
    let start = text.skip_spaces(pos);
    if !(text.at(start, 'l') && text.at(start + 1, 'e') && text.at(start + 2, 't') && text.at(
        start + 3,
        ' ',
    )) {
        return Err(ParseError::new(start, Expected::Let, Rule::Alias));
    }
    let name_at = text.skip_spaces(start + 4);
    let (variable, after_name) = match alias_link_at(text, name_at) {
        Ok(found) => found,
        Err(inner) => {
            return Err(inner.within(Rule::Alias));
        },
    };
    let equals = text.skip_spaces(after_name);
    if !text.at(equals, '=') {
        return Err(ParseError::new(equals, Expected::Equals, Rule::Alias));
    }
    let expression_at_pos = text.skip_spaces(equals + 1);
    match expression_at(text, expression_at_pos) {
        Ok((expression, after)) => {
            let end = text.skip_spaces(after);
            Ok((Alias::from_tuple((variable, expression)), end))
        },
        Err(inner) => Err(inner.within(Rule::Alias)),
    }
}

/// Reads definitions from the start of the text for as long as there are
/// any. Hands back the definitions, where they end, and why no further one
/// could be read.
fn file_at(text: &Text) -> (result: (Vec<Alias>, usize, ParseError))
    requires
        text.wf(),
    ensures
        alias_views(result.0@) == grammar::file(text.view()).0,
        result.1 == grammar::file(text.view()).1,
        result.2@ == grammar::file(text.view()).2,
        result.1 <= text.view().len(),
{
    let start = text.skip_spaces(0);
    let mut aliases: Vec<Alias> = Vec::new();
    let mut end = start;
    proof {
        assert(alias_views(aliases@) =~= Seq::<Definition>::empty());
        assert(Seq::<Definition>::empty() + grammar::aliases(text.view(), start as int).0
            =~= grammar::aliases(text.view(), start as int).0);
    }
    loop
        invariant
            text.wf(),
            start == grammar::skip_spaces(text.view(), 0),
            start <= end <= text.view().len(),
            grammar::aliases(text.view(), start as int).0 == alias_views(aliases@)
                + grammar::aliases(text.view(), end as int).0,
            grammar::aliases(text.view(), start as int).1 == grammar::aliases(
                text.view(),
                end as int,
            ).1,
            grammar::aliases(text.view(), start as int).2 == grammar::aliases(
                text.view(),
                end as int,
            ).2,
        decreases text.view().len() - end,
    {
        match alias_at(text, end) {
            Ok((found, after)) => {
                proof {
                    let rest = grammar::aliases(text.view(), after as int).0;
                    assert(alias_views(aliases@.push(found)) =~= alias_views(aliases@).push(
                        found@,
                    ));
                    assert(alias_views(aliases@) + (seq![found@] + rest) =~= alias_views(
                        aliases@,
                    ).push(found@) + rest);
                }
                aliases.push(found);
                end = after;
            },
            Err(why) => {
                proof {
                    assert(alias_views(aliases@) + Seq::<Definition>::empty() =~= alias_views(
                        aliases@,
                    ));
                }
                return (aliases, text.skip_spaces(end), why);
            },
        }
    }
}

/// Hands the outcome of a rule back with the text that is left in place of
/// the position.
fn with_rest<'a, T>(text: &Text<'a>, outcome: Result<(T, usize), ParseError>) -> (result: Result<
    (&'a str, T),
    ParseError,
>)
    requires
        text.wf(),
        outcome matches Ok((_, end)) ==> end <= text.view().len(),
    ensures
        match outcome {
            Ok((found, end)) => result matches Ok((rest, same)) && same == found && rest@
                == text.view().subrange(end as int, text.view().len() as int),
            Err(error) => result == Err::<(&'a str, T), ParseError>(error),
        },
{
    match outcome {
        Ok((found, end)) => Ok((text.rest(end), found)),
        Err(error) => Err(error),
    }
}

/// Reads a variable at the start of `input`.
pub fn parse_variable<'a>(input: &'a str) -> (result: Result<(&'a str, Variable), ParseError>)
    ensures
        match result {
            Ok((rest, found)) => grammar::variable(input@, 0) matches Ok((value, end)) && found@
                == value && rest@ == input@.subrange(end, input@.len() as int),
            Err(error) => grammar::variable(input@, 0) == Err::<(char, int), Failure>(error@),
        },
{
    let text = Text::open(input);
    with_rest(&text, variable_at(&text, 0))
}

/// Reads a function at the start of `input`.
pub fn parse_function<'a>(input: &'a str) -> (result: Result<(&'a str, Function), ParseError>)
    ensures
        match result {
            Ok((rest, found)) => grammar::function(input@, 0) matches Ok((value, end)) && found@
                == value && rest@ == input@.subrange(end, input@.len() as int),
            Err(error) => grammar::function(input@, 0) == Err::<(Expr, int), Failure>(error@),
        },
{
    let text = Text::open(input);
    with_rest(&text, function_at(&text, 0))
}

/// Reads the name of a reference at the start of `input`.
pub fn parse_alias_link<'a>(input: &'a str) -> (result: Result<(&'a str, AliasLink), ParseError>)
    ensures
        match result {
            Ok((rest, found)) => grammar::alias_link(input@, 0) matches Ok((value, end)) && found@
                == value && rest@ == input@.subrange(end, input@.len() as int),
            Err(error) => grammar::alias_link(input@, 0) == Err::<(Seq<char>, int), Failure>(
                error@,
            ),
        },
{
    let text = Text::open(input);
    with_rest(&text, alias_link_at(&text, 0))
}

/// Reads an expression at the start of `input`.
pub fn parse_expression<'a>(input: &'a str) -> (result: Result<(&'a str, Expression), ParseError>)
    ensures
        match result {
            Ok((rest, found)) => grammar::expression(input@, 0) matches Ok((value, end)) && found@
                == value && rest@ == input@.subrange(end, input@.len() as int),
            Err(error) => grammar::expression(input@, 0) == Err::<(Expr, int), Failure>(error@),
        },
{
    let text = Text::open(input);
    with_rest(&text, expression_at(&text, 0))
}

/// Reads the body of a function at the start of `input`.
pub fn parse_expressions<'a>(input: &'a str) -> (result: Result<
    (&'a str, Vec<Expression>),
    ParseError,
>)
    ensures
        match result {
            Ok((rest, found)) => grammar::expressions(input@, 0) matches Ok((value, end))
                && expression_views(found@) == value && rest@ == input@.subrange(
                end,
                input@.len() as int,
            ),
            Err(error) => grammar::expressions(input@, 0) == Err::<(Seq<Expr>, int), Failure>(
                error@,
            ),
        },
{
    let text = Text::open(input);
    with_rest(&text, expressions_at(&text, 0))
}

/// Reads a definition at the start of `input`.
pub fn parse_alias<'a>(input: &'a str) -> (result: Result<(&'a str, Alias), ParseError>)
    ensures
        match result {
            Ok((rest, found)) => grammar::alias(input@, 0) matches Ok((value, end)) && found@
                == value && rest@ == input@.subrange(end, input@.len() as int),
            Err(error) => grammar::alias(input@, 0) == Err::<(Definition, int), Failure>(error@),
        },
{
    let text = Text::open(input);
    with_rest(&text, alias_at(&text, 0))
}

/// Reads the definitions at the start of `input`. This never fails: what
/// cannot be read as a definition is left over.
pub fn parse_file<'a>(input: &'a str) -> (result: Result<(&'a str, Vec<Alias>), ParseError>)
    ensures
        result matches Ok((rest, found)) && alias_views(found@) == grammar::file(input@).0 && rest@
            == input@.subrange(grammar::file(input@).1, input@.len() as int),
{
    let text = Text::open(input);
    let (aliases, end, _) = file_at(&text);
    Ok((text.rest(end), aliases))
}

/// Reads a whole text as a program. The text must hold definitions and
/// spaces only. A program that is read has no more binders than the text has
/// characters.
pub fn parse(input: &str) -> (result: Result<Vec<Alias>, ParseError>)
    ensures
        match result {
            Ok(aliases) => grammar::program(input@) == Ok::<Seq<Definition>, Failure>(
                alias_views(aliases@),
            ),
            Err(error) => grammar::program(input@) == Err::<Seq<Definition>, Failure>(error@),
        },
        result matches Ok(aliases) ==> total_binders(alias_views(aliases@)) <= input@.len()
            <= usize::MAX,
{
    let text = Text::open(input);
    let (aliases, end, why) = file_at(&text);
    proof {
        lemma_file_binders(text.view());
    }
    if end == text.len() {
        Ok(aliases)
    } else {
        Err(why.within(Rule::File))
    }
}

} // verus!
