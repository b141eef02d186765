//! Resolved expressions as text: a variable is its letter, a function is
//! `λ`, its parameter, a dot and its body between parentheses, with one space
//! between the expressions of the body.

use crate::types::{
    lemma_tfunction_view, texpression_views, TExpr, TExpression, TFunction, TVariable,
};
use vstd::prelude::*;

verus! {

/// `String::push` appends the character to the end of the string.
pub assume_specification[ String::push ](text: &mut String, c: char)
    ensures
        final(text)@ == old(text)@.push(c),
;

/// The text of `e`.
pub open spec fn rendered(e: TExpr) -> Seq<char>
    decreases e,
{
    match e {
        TExpr::Function { parameter, body } => seq!['λ', parameter.0, '.', '('] + rendered_each(
            body,
        ) + seq![')'],
        TExpr::Variable { variable } => seq![variable.0],
    }
}

/// The texts of `expressions`, in order, with one space between each two.
pub open spec fn rendered_each(expressions: Seq<TExpr>) -> Seq<char>
    decreases expressions,
{
    if expressions.len() == 0 {
        Seq::empty()
    } else if expressions.len() == 1 {
        rendered(expressions[0])
    } else {
        rendered_each(expressions.drop_last()) + seq![' '] + rendered(expressions.last())
    }
}

/// The text of `expressions` as a group: between parentheses.
pub open spec fn rendered_group(expressions: Seq<TExpr>) -> Seq<char> {
    seq!['('] + rendered_each(expressions) + seq![')']
}

/// Appends the texts of `expressions` to `text`, with one space between
/// each two.
fn write_each(expressions: &Vec<TExpression>, text: &mut String)
    ensures
        final(text)@ == old(text)@ + rendered_each(texpression_views(expressions@)),
    decreases expressions,
{
    let ghost views = texpression_views(expressions@);
    let ghost start = text@;
    let mut i: usize = 0;
    proof {
        assert(views.take(0) =~= Seq::<TExpr>::empty());
        assert(start + Seq::<char>::empty() =~= start);
    }
    while i < expressions.len()
        invariant
            i <= expressions.len(),
            views == texpression_views(expressions@),
            text@ == start + rendered_each(views.take(i as int)),
        decreases expressions.len() - i,
    {
        proof {
            let through = views.take(i + 1);
            assert(through.drop_last() =~= views.take(i as int));
            assert(through.last() == expressions@[i as int]@);
            if i == 0 {
                assert(through[0] == expressions@[0]@);
                assert(start + Seq::<char>::empty() + rendered(through[0]) =~= start + rendered(
                    through[0],
                ));
            } else {
                let before = rendered_each(views.take(i as int));
                assert(start + before + seq![' '] + rendered(through.last()) =~= start + (before
                    + seq![' '] + rendered(through.last())));
            }
        }
        if i > 0 {
            text.push(' ');
        }
        expressions[i].write(text);
        i += 1;
    }
    proof {
        assert(views.take(views.len() as int) =~= views);
    }
}

impl TVariable {
    /// The variable as text: its letter.
    pub fn display(&self) -> (text: String)
        ensures
            text@ == seq![self.0],
    {
        let mut text = String::new();
        text.push(self.0);
        proof {
            assert(text@ =~= seq![self.0]);
        }
        text
    }
}

impl TFunction {
    fn write(&self, text: &mut String)
        ensures
            final(text)@ == old(text)@ + rendered(self@),
        decreases self,
    {
        let ghost start = text@;
        proof {
            lemma_tfunction_view(*self);
        }
        text.push('λ');
        text.push(self.variable.0);
        text.push('.');
        text.push('(');
        write_each(&self.expression, text);
        text.push(')');
        proof {
            let body = rendered_each(texpression_views(self.expression@));
            assert(text@ =~= start + (seq!['λ', self.variable.0, '.', '('] + body + seq![')']));
        }
    }

    /// The function as text: `λ`, the parameter, a dot and the body between
    /// parentheses.
    pub fn display(&self) -> (text: String)
        ensures
            text@ == rendered(self@),
    {
        let mut text = String::new();
        self.write(&mut text);
        proof {
            assert(Seq::<char>::empty() + rendered(self@) =~= rendered(self@));
        }
        text
    }
}

impl TExpression {
    fn write(&self, text: &mut String)
        ensures
            final(text)@ == old(text)@ + rendered(self@),
        decreases self,
    {
        match self {
            TExpression::Function(function) => function.write(text),
            TExpression::Variable(variable) => {
                text.push(variable.0);
                proof {
                    assert(text@ =~= old(text)@ + seq![variable.0]);
                }
            },
        }
    }

    /// The expression as text.
    pub fn display(&self) -> (text: String)
        ensures
            text@ == rendered(self@),
    {
        let mut text = String::new();
        self.write(&mut text);
        proof {
            assert(Seq::<char>::empty() + rendered(self@) =~= rendered(self@));
        }
        text
    }

    /// The expressions as one group of text: between parentheses, with one
    /// space between each two.
    pub fn display_expressions(exprs: Vec<TExpression>) -> (text: String)
        ensures
            text@ == rendered_group(texpression_views(exprs@)),
    {
        let mut text = String::new();
        text.push('(');
        write_each(&exprs, &mut text);
        text.push(')');
        proof {
            assert(text@ =~= rendered_group(texpression_views(exprs@)));
        }
        text
    }
}

} // verus!
