//! The display form of expressions.

use vstd::prelude::*;
use crate::ast::{Expression, Term, terms_of};
use crate::text::{decimal, u64_to_text};

verus! {

/// The display form of a term: integers in decimal, strings between double
/// quotes, lists between square brackets, and one fixed placeholder each for
/// `Null`, for the end-of-program mark, for every function and for every
/// built-in, whatever they hold.
pub open spec fn render(t: Term) -> Seq<char>
    decreases t, 0int,
{
    match t {
        Term::List(items) => "["@ + render_first(items, items.len(), ", "@, ""@) + "]"@,
        Term::IntegerValue(n) => decimal(n as nat),
        Term::Program(items) => render_first(items, items.len(), "\n"@, ";"@),
        Term::IfExpression(c, t, e) => "if "@ + render(*c) + " "@ + render(*t) + " else "@
            + render(*e),
        Term::Block(items) => "{ "@ + render_first(items, items.len(), "\n"@, ";"@) + " }"@,
        Term::StringValue(s) => "\""@ + s + "\""@,
        Term::BooleanValue(b) => if b {
            "true"@
        } else {
            "false"@
        },
        Term::Identifier(name) => name,
        Term::Fn(_, _) => "<function>"@,
        Term::LetBinding(name, v) => "let "@ + name + " = "@ + render(*v),
        Term::While(c, body) => "while "@ + render(*c) + " "@ + render(*body),
        Term::FnCall(f, a) => "("@ + render(*f) + "("@ + (match a {
            Some(arg) => render(*arg),
            None => ""@,
        }) + "))"@,
        Term::Null => "<null>"@,
        Term::EndOfProgram => "<end of program>"@,
        Term::BuiltInFn(_, _, _) => "<built-in function>"@,
    }
}

/// The display forms of the first `n` terms of `items`, each followed by
/// `tail`, with `sep` between one and the next.
pub open spec fn render_first(items: Seq<Term>, n: nat, sep: Seq<char>, tail: Seq<char>) -> Seq<
    char,
>
    decreases items, n,
{
    if n == 0 || n > items.len() {
        Seq::empty()
    } else if n == 1 {
        render(items[0]) + tail
    } else {
        render_first(items, (n - 1) as nat, sep, tail) + sep + render(items[n - 1]) + tail
    }
}

/// The display forms of `items`, each followed by `tail`, with `sep`
/// between one and the next.
fn render_sequence(items: &Vec<Expression>, sep: &str, tail: &str) -> (out: String)
    ensures
        out@ == render_first(terms_of(items@), items@.len(), sep@, tail@),
    decreases items, 0int,
{
    let mut out = String::new();
    let mut i: usize = 0;
    while i < items.len()
        invariant
            i <= items.len(),
            out@ == render_first(terms_of(items@), i as nat, sep@, tail@),
        decreases items.len() - i,
    {
        if i > 0 {
            out.append(sep);
        }
        let piece = items[i].render();
        assert(terms_of(items@)[i as int] == items[i as int]@);
        out.append(piece.as_str());
        out.append(tail);
        i += 1;
    }
    out
}

impl Expression {
    /// The display form of this expression.
    pub fn render(&self) -> (out: String)
        ensures
            out@ == render(self@),
        decreases self, 1int,
    {
        match self {
            Expression::List(items) => {
                let mut out = String::from_str("[");
                out.append(render_sequence(items, ", ", "").as_str());
                out.append("]");
                out
            },
            Expression::IntegerValue(n) => u64_to_text(*n),
            Expression::Program(items) => render_sequence(items, "\n", ";"),
            Expression::IfExpression(c, t, e) => {
                let mut out = String::from_str("if ");
                out.append(c.render().as_str());
                out.append(" ");
                out.append(t.render().as_str());
                out.append(" else ");
                out.append(e.render().as_str());
                out
            },
            Expression::Block(items) => {
                let mut out = String::from_str("{ ");
                out.append(render_sequence(items, "\n", ";").as_str());
                out.append(" }");
                out
            },
            Expression::StringValue(s) => {
                let mut out = String::from_str("\"");
                out.append(s.as_str());
                out.append("\"");
                out
            },
            Expression::BooleanValue(b) => if *b {
                String::from_str("true")
            } else {
                String::from_str("false")
            },
            Expression::Identifier(name) => name.clone(),
            Expression::Fn(_, _) => String::from_str("<function>"),
            Expression::LetBinding(name, v) => {
                let mut out = String::from_str("let ");
                out.append(name.as_str());
                out.append(" = ");
                out.append(v.render().as_str());
                out
            },
            Expression::While(c, body) => {
                let mut out = String::from_str("while ");
                out.append(c.render().as_str());
                out.append(" ");
                out.append(body.render().as_str());
                out
            },
            Expression::FnCall(f, a) => {
                let mut out = String::from_str("(");
                out.append(f.render().as_str());
                out.append("(");
                match &**a {
                    Some(arg) => out.append(arg.render().as_str()),
                    None => out.append(""),
                }
                out.append("))");
                out
            },
            Expression::Null => String::from_str("<null>"),
            Expression::EndOfProgram => String::from_str("<end of program>"),
            Expression::BuiltInFn(_, _, _) => String::from_str("<built-in function>"),
        }
    }
}

} // verus!
