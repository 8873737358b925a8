//! The expression tree, which serves both as syntax and as runtime value, and
//! its mathematical model.

use vstd::prelude::*;
use crate::error::{EvalError, Fault, ValueKind};
use crate::render::render;

verus! {

/// The native operations that a program can call by name.
#[derive(Clone, Copy, Debug, PartialEq, Eq, Structural)]
pub enum BuiltIn {
    Print,
    PrintLine,
    Add,
    Sub,
    Mul,
    Div,
    Mod,
    Less,
    Greater,
    Equal,
    Not,
    Sqrt,
    GetInputLine,
    JoinStr,
    StrToInt,
    ListLen,
    ListNth,
    ListPush,
}

/// The model of an expression: text is a sequence of characters, a list a
/// sequence of terms.
pub enum Term {
    List(Seq<Term>),
    IntegerValue(u64),
    StringValue(Seq<char>),
    BooleanValue(bool),
    Identifier(Seq<char>),
    IfExpression(Box<Term>, Box<Term>, Box<Term>),
    While(Box<Term>, Box<Term>),
    Fn(Option<Seq<char>>, Box<Term>),
    LetBinding(Seq<char>, Box<Term>),
    FnCall(Box<Term>, Option<Box<Term>>),
    Block(Seq<Term>),
    Program(Seq<Term>),
    BuiltInFn(u8, BuiltIn, Seq<Term>),
    Null,
    EndOfProgram,
}

/// An expression of the language. Evaluated literals, lists, functions and
/// built-ins are the runtime values; the other variants are syntax only.
#[derive(Debug)]
pub enum Expression {
    List(Vec<Expression>),
    IntegerValue(u64),
    StringValue(String),
    BooleanValue(bool),
    Identifier(String),
    /// Condition, branch taken when true, branch taken when false.
    IfExpression(Box<Expression>, Box<Expression>, Box<Expression>),
    /// Condition, body.
    While(Box<Expression>, Box<Expression>),
    /// Parameter name, if the function takes one, and body.
    Fn(Option<String>, Box<Expression>),
    /// Variable name, value.
    LetBinding(String, Box<Expression>),
    /// Callee, argument if one is given.
    FnCall(Box<Expression>, Box<Option<Expression>>),
    Block(Vec<Expression>),
    Program(Vec<Expression>),
    /// Number of arguments still awaited, operation, arguments applied so far.
    BuiltInFn(u8, BuiltIn, Vec<Expression>),
    Null,
    EndOfProgram,
}

/// The models of a sequence of expressions, element by element.
pub open spec fn terms_of(items: Seq<Expression>) -> Seq<Term>
    decreases items, 0int,
{
    Seq::new(
        items.len(),
        |i: int|
            if 0 <= i < items.len() {
                items[i].model()
            } else {
                Term::Null
            },
    )
}

impl Expression {
    /// The model of this expression.
    pub open spec fn model(&self) -> Term
        decreases self, 1int,
    {
        match self {
            Expression::List(items) => Term::List(terms_of(items@)),
            Expression::IntegerValue(n) => Term::IntegerValue(*n),
            Expression::StringValue(s) => Term::StringValue(s@),
            Expression::BooleanValue(b) => Term::BooleanValue(*b),
            Expression::Identifier(name) => Term::Identifier(name@),
            Expression::IfExpression(c, t, e) => Term::IfExpression(
                Box::new(c.model()),
                Box::new(t.model()),
                Box::new(e.model()),
            ),
            Expression::While(c, b) => Term::While(Box::new(c.model()), Box::new(b.model())),
            Expression::Fn(p, b) => Term::Fn(
                match p {
                    Some(name) => Some(name@),
                    None => None,
                },
                Box::new(b.model()),
            ),
            Expression::LetBinding(name, v) => Term::LetBinding(name@, Box::new(v.model())),
            Expression::FnCall(f, a) => Term::FnCall(
                Box::new(f.model()),
                match **a {
                    Some(arg) => Some(Box::new(arg.model())),
                    None => None,
                },
            ),
            Expression::Block(items) => Term::Block(terms_of(items@)),
            Expression::Program(items) => Term::Program(terms_of(items@)),
            Expression::BuiltInFn(k, op, args) => Term::BuiltInFn(*k, *op, terms_of(args@)),
            Expression::Null => Term::Null,
            Expression::EndOfProgram => Term::EndOfProgram,
        }
    }
}

impl PartialEq for Expression {
    /// Equality of values, as `equals` decides it.
    fn eq(&self, other: &Self) -> (r: bool) {
        self.equals(other)
    }
}

impl vstd::std_specs::cmp::PartialEqSpecImpl for Expression {
    open spec fn obeys_eq_spec() -> bool {
        true
    }

    open spec fn eq_spec(&self, other: &Self) -> bool {
        term_eq(self@, other@)
    }
}

impl View for Expression {
    type V = Term;

    open spec fn view(&self) -> Term {
        self.model()
    }
}

/// A copy of every expression of `items`, in order.
pub fn clone_all(items: &Vec<Expression>) -> (out: Vec<Expression>)
    ensures
        terms_of(out@) == terms_of(items@),
        out@.len() == items@.len(),
    decreases items, 0int,
{
    let mut out: Vec<Expression> = Vec::new();
    let mut i: usize = 0;
    while i < items.len()
        invariant
            i <= items.len(),
            out@.len() == i,
            forall|j: int| 0 <= j < i ==> out@[j]@ == items@[j]@,
        decreases items.len() - i,
    {
        let copy = items[i].clone();
        out.push(copy);
        i += 1;
    }
    assert(terms_of(out@) =~= terms_of(items@));
    out
}

impl Clone for Expression {
    /// A deep copy: the result has the same model.
    fn clone(&self) -> (out: Expression)
        ensures
            out@ == self@,
        decreases self, 1int,
    {
        match self {
            Expression::List(items) => Expression::List(clone_all(items)),
            Expression::IntegerValue(n) => Expression::IntegerValue(*n),
            Expression::StringValue(s) => Expression::StringValue(s.clone()),
            Expression::BooleanValue(b) => Expression::BooleanValue(*b),
            Expression::Identifier(name) => Expression::Identifier(name.clone()),
            Expression::IfExpression(c, t, e) => Expression::IfExpression(
                Box::new((**c).clone()),
                Box::new((**t).clone()),
                Box::new((**e).clone()),
            ),
            Expression::While(c, b) => Expression::While(
                Box::new((**c).clone()),
                Box::new((**b).clone()),
            ),
            Expression::Fn(p, b) => {
                let param = match p {
                    Some(name) => Some(name.clone()),
                    None => None,
                };
                Expression::Fn(param, Box::new((**b).clone()))
            },
            Expression::LetBinding(name, v) => Expression::LetBinding(
                name.clone(),
                Box::new((**v).clone()),
            ),
            Expression::FnCall(f, a) => {
                let arg = match &**a {
                    Some(arg) => Some(arg.clone()),
                    None => None,
                };
                Expression::FnCall(Box::new((**f).clone()), Box::new(arg))
            },
            Expression::Block(items) => Expression::Block(clone_all(items)),
            Expression::Program(items) => Expression::Program(clone_all(items)),
            Expression::BuiltInFn(k, op, args) => Expression::BuiltInFn(*k, *op, clone_all(args)),
            Expression::Null => Expression::Null,
            Expression::EndOfProgram => Expression::EndOfProgram,
        }
    }
}

/// Equality of values: integers, texts, truth values and identifiers are
/// equal where their payloads are, lists where they are equal element by
/// element, `Null` equals itself; anything else, a function or a built-in
/// among them, equals nothing.
pub open spec fn term_eq(a: Term, b: Term) -> bool
    decreases a,
{
    match (a, b) {
        (Term::List(x), Term::List(y)) => x.len() == y.len() && forall|i: int|
            0 <= i < x.len() ==> term_eq(#[trigger] x[i], y[i]),
        (Term::StringValue(x), Term::StringValue(y)) => x == y,
        (Term::IntegerValue(x), Term::IntegerValue(y)) => x == y,
        (Term::BooleanValue(x), Term::BooleanValue(y)) => x == y,
        (Term::Identifier(x), Term::Identifier(y)) => x == y,
        (Term::Null, Term::Null) => true,
        _ => false,
    }
}

/// Whether equality is defined on `t`: a scalar, an identifier, `Null`, or a
/// list of such values.
pub open spec fn comparable(t: Term) -> bool
    decreases t,
{
    match t {
        Term::List(x) => forall|i: int| 0 <= i < x.len() ==> comparable(#[trigger] x[i]),
        Term::StringValue(_) | Term::IntegerValue(_) | Term::BooleanValue(_) | Term::Identifier(
            _,
        ) | Term::Null => true,
        _ => false,
    }
}

/// Equality is reflexive on the values on which it is defined.
pub proof fn lemma_eq_reflexive(a: Term)
    requires
        comparable(a),
    ensures
        term_eq(a, a),
    decreases a,
{
    match a {
        Term::List(x) => {
            assert forall|i: int| 0 <= i < x.len() implies term_eq(#[trigger] x[i], x[i]) by {
                lemma_eq_reflexive(x[i]);
            }
        },
        _ => {},
    }
}

/// Equality is symmetric, on all values.
pub proof fn lemma_eq_symmetric(a: Term, b: Term)
    ensures
        term_eq(a, b) == term_eq(b, a),
    decreases a,
{
    match (a, b) {
        (Term::List(x), Term::List(y)) => {
            if x.len() == y.len() {
                assert forall|i: int| 0 <= i < x.len() implies term_eq(#[trigger] x[i], y[i])
                    == term_eq(y[i], x[i]) by {
                    lemma_eq_symmetric(x[i], y[i]);
                }
                if term_eq(a, b) {
                    assert forall|i: int| 0 <= i < y.len() implies term_eq(
                        #[trigger] y[i],
                        x[i],
                    ) by {
                        assert(term_eq(x[i], y[i]));
                    }
                }
                if term_eq(b, a) {
                    assert forall|i: int| 0 <= i < x.len() implies term_eq(
                        #[trigger] x[i],
                        y[i],
                    ) by {
                        assert(term_eq(y[i], x[i]));
                    }
                }
            }
        },
        _ => {},
    }
}

/// A function or a built-in equals nothing, itself included.
pub proof fn lemma_eq_function_false(a: Term, b: Term)
    requires
        a is Fn || a is BuiltInFn || b is Fn || b is BuiltInFn,
    ensures
        !term_eq(a, b),
{
}

/// Whether the two sequences are equal element by element.
pub fn all_equal(x: &Vec<Expression>, y: &Vec<Expression>) -> (r: bool)
    ensures
        r == term_eq(Term::List(terms_of(x@)), Term::List(terms_of(y@))),
    decreases x, 0int,
{
    if x.len() != y.len() {
        return false;
    }
    let mut i: usize = 0;
    while i < x.len()
        invariant
            i <= x.len(),
            x.len() == y.len(),
            forall|j: int| 0 <= j < i ==> term_eq(#[trigger] terms_of(x@)[j], terms_of(y@)[j]),
        decreases x.len() - i,
    {
        if !x[i].equals(&y[i]) {
            assert(!term_eq(terms_of(x@)[i as int], terms_of(y@)[i as int]));
            return false;
        }
        i += 1;
    }
    true
}

/// The integer that `t` holds, or else a type mismatch that shows `t`.
pub open spec fn expect_integer(t: Term) -> Result<u64, Fault> {
    match t {
        Term::IntegerValue(n) => Ok(n),
        _ => Err(Fault::TypeMismatch(ValueKind::Integer, render(t))),
    }
}

/// The text that `t` holds, or else a type mismatch that shows `t`.
pub open spec fn expect_text(t: Term) -> Result<Seq<char>, Fault> {
    match t {
        Term::StringValue(s) => Ok(s),
        _ => Err(Fault::TypeMismatch(ValueKind::Text, render(t))),
    }
}

/// The truth value that `t` holds, or else a type mismatch that shows `t`.
pub open spec fn expect_boolean(t: Term) -> Result<bool, Fault> {
    match t {
        Term::BooleanValue(b) => Ok(b),
        _ => Err(Fault::TypeMismatch(ValueKind::Boolean, render(t))),
    }
}

/// The name that `t` holds, or else a type mismatch that shows `t`.
pub open spec fn expect_identifier(t: Term) -> Result<Seq<char>, Fault> {
    match t {
        Term::Identifier(name) => Ok(name),
        _ => Err(Fault::TypeMismatch(ValueKind::Identifier, render(t))),
    }
}

/// The elements that `t` holds, or else a type mismatch that shows `t`.
pub open spec fn expect_list(t: Term) -> Result<Seq<Term>, Fault> {
    match t {
        Term::List(items) => Ok(items),
        _ => Err(Fault::TypeMismatch(ValueKind::List, render(t))),
    }
}

impl Expression {
    /// The integer that this value holds; a type mismatch for any other
    /// expression.
    pub fn integer_value(&self) -> (r: Result<u64, EvalError>)
        ensures
            expect_integer(self@) == (match r {
                Ok(value) => Ok::<u64, Fault>(value),
                Err(e) => Err::<u64, Fault>(e@),
            }),
    {
        match self {
            Expression::IntegerValue(n) => Ok(*n),
            _ => Err(EvalError::TypeMismatch(ValueKind::Integer, self.render())),
        }
    }

    /// The text that this value holds; a type mismatch for any other
    /// expression.
    pub fn string_value(&self) -> (r: Result<String, EvalError>)
        ensures
            expect_text(self@) == (match r {
                Ok(value) => Ok::<Seq<char>, Fault>(value@),
                Err(e) => Err::<Seq<char>, Fault>(e@),
            }),
    {
        match self {
            Expression::StringValue(s) => Ok(s.clone()),
            _ => Err(EvalError::TypeMismatch(ValueKind::Text, self.render())),
        }
    }

    /// The truth value that this value holds; a type mismatch for any other
    /// expression.
    pub fn boolean_value(&self) -> (r: Result<bool, EvalError>)
        ensures
            expect_boolean(self@) == (match r {
                Ok(value) => Ok::<bool, Fault>(value),
                Err(e) => Err::<bool, Fault>(e@),
            }),
    {
        match self {
            Expression::BooleanValue(b) => Ok(*b),
            _ => Err(EvalError::TypeMismatch(ValueKind::Boolean, self.render())),
        }
    }

    /// The name that this identifier holds; a type mismatch for any other
    /// expression.
    pub fn identifier_name(&self) -> (r: Result<String, EvalError>)
        ensures
            expect_identifier(self@) == (match r {
                Ok(value) => Ok::<Seq<char>, Fault>(value@),
                Err(e) => Err::<Seq<char>, Fault>(e@),
            }),
    {
        match self {
            Expression::Identifier(name) => Ok(name.clone()),
            _ => Err(EvalError::TypeMismatch(ValueKind::Identifier, self.render())),
        }
    }

    /// The elements that this list holds; a type mismatch for any other
    /// expression.
    pub fn list_value(&self) -> (r: Result<Vec<Expression>, EvalError>)
        ensures
            expect_list(self@) == (match r {
                Ok(value) => Ok::<Seq<Term>, Fault>(terms_of(value@)),
                Err(e) => Err::<Seq<Term>, Fault>(e@),
            }),
    {
        match self {
            Expression::List(items) => Ok(clone_all(items)),
            _ => Err(EvalError::TypeMismatch(ValueKind::List, self.render())),
        }
    }

    /// Whether the two values are equal.
    pub fn equals(&self, other: &Expression) -> (r: bool)
        ensures
            r == term_eq(self@, other@),
        decreases self, 1int,
    {
        match (self, other) {
            (Expression::List(x), Expression::List(y)) => all_equal(x, y),
            (Expression::StringValue(x), Expression::StringValue(y)) => *x == *y,
            (Expression::IntegerValue(x), Expression::IntegerValue(y)) => *x == *y,
            (Expression::BooleanValue(x), Expression::BooleanValue(y)) => *x == *y,
            (Expression::Identifier(x), Expression::Identifier(y)) => *x == *y,
            (Expression::Null, Expression::Null) => true,
            _ => false,
        }
    }

    /// Whether this is the `Null` value.
    pub fn is_null(&self) -> (r: bool)
        ensures
            r == (self@ == Term::Null),
    {
        match self {
            Expression::Null => true,
            _ => false,
        }
    }
}

} // verus!
