//! The grammar once more, written with parser combinators, and held against
//! the parser on chosen and on random texts.

use laplace::lexer::{
    parse, parse_alias, parse_alias_link, parse_expression, parse_expressions, parse_file,
    parse_function, parse_variable, ParseError,
};
use laplace::types::{Alias, AliasLink, Expression, Function, Variable};
use nom::bytes::complete as bcomplete;
use nom::character::complete as ccomplete;
use nom::{branch, combinator, multi, sequence, AsChar, IResult, Parser};
use rand::rngs::StdRng;
use rand::{Rng, SeedableRng};

fn space_safe<'a, F, O>(parser: F) -> impl Parser<&'a str, O, ()>
where
    F: Parser<&'a str, O, ()>,
{
    sequence::delimited(ccomplete::multispace0, parser, ccomplete::multispace0)
}

fn variable(input: &str) -> IResult<&str, Variable, ()> {
    let (rest, this) = ccomplete::anychar(input)?;
    match this {
        i if i.is_alpha() && i.is_lowercase() => Ok((rest, Variable(i))),
        _ => combinator::fail(input),
    }
}

fn function(input: &str) -> IResult<&str, Function, ()> {
    sequence::preceded(
        ccomplete::one_of("λ\\"),
        sequence::separated_pair(variable, bcomplete::tag("."), expressions),
    )
    .map(Function::from_tuple)
    .parse(input)
}

fn alias_link(input: &str) -> IResult<&str, AliasLink, ()> {
    bcomplete::take_while1(|data: char| data.is_alpha() && data.is_uppercase())
        .map(|data: &str| AliasLink(data.to_string()))
        .parse(input)
}

fn expression(input: &str) -> IResult<&str, Expression, ()> {
    branch::alt((
        sequence::delimited(
            bcomplete::tag("("),
            branch::alt((
                function.map(Expression::Function),
                alias_link.map(Expression::AliasLink),
                variable.map(Expression::Variable),
            )),
            bcomplete::tag(")"),
        ),
        branch::alt((
            function.map(Expression::Function),
            alias_link.map(Expression::AliasLink),
            variable.map(Expression::Variable),
        )),
    ))
    .parse(input)
}

fn expressions(input: &str) -> IResult<&str, Vec<Expression>, ()> {
    branch::alt((
        sequence::delimited(
            bcomplete::tag("("),
            multi::many1(space_safe(branch::alt((
                sequence::delimited(bcomplete::tag("("), space_safe(expression), bcomplete::tag(")")),
                expression,
            )))),
            bcomplete::tag(")"),
        ),
        multi::many1(branch::alt((
            sequence::delimited(bcomplete::tag("("), space_safe(expression), bcomplete::tag(")")),
            expression,
        ))),
    ))
    .parse(input)
}

fn alias(input: &str) -> IResult<&str, Alias, ()> {
    space_safe(sequence::preceded(
        bcomplete::tag("let "),
        sequence::separated_pair(
            space_safe(alias_link),
            bcomplete::tag("="),
            space_safe(expression),
        ),
    ))
    .map(Alias::from_tuple)
    .parse(input)
}

fn file(input: &str) -> IResult<&str, Vec<Alias>, ()> {
    space_safe(multi::many0(alias)).parse(input)
}

fn program(input: &str) -> Option<Vec<Alias>> {
    match combinator::all_consuming(file).parse(input) {
        Ok(("", result)) => Some(result),
        _ => None,
    }
}

fn theirs<'a, T>(result: IResult<&'a str, T, ()>) -> Option<(&'a str, T)> {
    result.ok()
}

fn ours<'a, T>(result: Result<(&'a str, T), ParseError>) -> Option<(&'a str, T)> {
    result.ok()
}

fn hold_against(text: &str) {
    assert_eq!(ours(parse_variable(text)), theirs(variable(text)), "variable on {:?}", text);
    assert_eq!(ours(parse_alias_link(text)), theirs(alias_link(text)), "alias_link on {:?}", text);
    assert_eq!(ours(parse_function(text)), theirs(function(text)), "function on {:?}", text);
    assert_eq!(ours(parse_expression(text)), theirs(expression(text)), "expression on {:?}", text);
    assert_eq!(
        ours(parse_expressions(text)),
        theirs(expressions(text)),
        "expressions on {:?}",
        text
    );
    assert_eq!(ours(parse_alias(text)), theirs(alias(text)), "alias on {:?}", text);
    assert_eq!(ours(parse_file(text)), theirs(file(text)), "file on {:?}", text);
    assert_eq!(parse(text).ok(), program(text), "program on {:?}", text);
}

const PIECES: [&str; 22] = [
    "λ", "\\", ".", "(", ")", " ", "\n", "\t", "=", "let ", "let", "a", "b", "x", "A", "MAIN",
    "TRUE", "λx.", "\\y.", "(a)", "1", "é",
];

fn random_text(rng: &mut StdRng, pieces: usize) -> String {
    let mut text = String::new();
    for _ in 0..pieces {
        text.push_str(PIECES[rng.gen_range(0..PIECES.len())]);
    }
    text
}

fn random_expression(rng: &mut StdRng, depth: usize) -> String {
    let space = |rng: &mut StdRng| if rng.gen_range(0..3) == 0 { " " } else { "" };
    match rng.gen_range(0..if depth == 0 { 2 } else { 5 }) {
        0 => ["a", "b", "x", "y"][rng.gen_range(0..4)].to_string(),
        1 => ["A", "ID", "TRUE"][rng.gen_range(0..3)].to_string(),
        2 => format!("({})", random_expression(rng, depth - 1)),
        _ => {
            let marker = if rng.gen_range(0..2) == 0 { "λ" } else { "\\" };
            let letter = ["a", "b", "x"][rng.gen_range(0..3)];
            let items = rng.gen_range(1..4);
            let mut body = String::new();
            for _ in 0..items {
                if rng.gen_range(0..3) == 0 {
                    body.push_str(&format!(
                        "({}{}{})",
                        space(rng),
                        random_expression(rng, depth - 1),
                        space(rng)
                    ));
                } else {
                    body.push_str(&random_expression(rng, depth - 1));
                }
                body.push_str(space(rng));
            }
            if rng.gen_range(0..2) == 0 {
                format!("{}{}.({}{})", marker, letter, space(rng), body)
            } else {
                format!("{}{}.{}", marker, letter, body)
            }
        }
    }
}

#[test]
fn agrees_with_the_combinators_on_chosen_texts() {
    for text in [
        "",
        "ab",
        " b",
        "\\b",
        "1b",
        "λa.b",
        "\\a.b",
        "λa.(b)",
        "λa.bc",
        "λa.(bc)",
        "λa.b(c)",
        "λa.(b(c))",
        "λa.(b)c",
        "a",
        "λa.",
        "λa.()b",
        "\\a.A",
        "λa.( b c )",
        "λa.(b c",
        "λa.((b))",
        "λa.(((b)))",
        "λa.( (b) )",
        "λa.((b) )",
        "λa.λb.λc.(a)(b)c",
        "λa.(λb.b)(c)",
        "(a)",
        "((a))",
        "( a )",
        "(AB)c",
        "ABc",
        "let MAIN = \\x.x\nlet TRUE = \\x.\\y.x\n",
        "let A=a",
        "  let   A   =   (a)   let B = A",
        "let A = a b",
        "letA = a",
        "let a = a",
        "let A a",
        "let A = ",
        "let A = \\x.(x) y",
        "let  = a",
        "\n\n",
    ] {
        hold_against(text);
    }
}

#[test]
fn agrees_with_the_combinators_on_random_texts() {
    let mut rng = StdRng::seed_from_u64(0x1a7b_da);
    for _ in 0..4000 {
        let pieces = rng.gen_range(0..10);
        let text = random_text(&mut rng, pieces);
        hold_against(&text);
    }
}

#[test]
fn agrees_with_the_combinators_on_random_programs() {
    let mut rng = StdRng::seed_from_u64(0x00c0_ffee);
    for _ in 0..1500 {
        let mut text = String::new();
        for _ in 0..rng.gen_range(0..4) {
            let name = ["MAIN", "ID", "A"][rng.gen_range(0..3)];
            text.push_str(&format!("let {} = {}\n", name, random_expression(&mut rng, 3)));
        }
        hold_against(&text);
        let body = random_expression(&mut rng, 4);
        hold_against(&body);
    }
}
