//! The built-in functions: their names, their arities and what they compute.

use vstd::prelude::*;
use crate::ast::{
    BuiltIn,
    Expression,
    Term,
    clone_all,
    expect_boolean,
    expect_integer,
    expect_list,
    expect_text,
    term_eq,
    terms_of,
};
use crate::error::{EvalError, Fault, ValueKind, outcome};
use crate::render::render;
use crate::scope::{EvaluationContext, EvaluationScope, Machine};
use crate::text::{chars_of, floor_sqrt, floor_sqrt_of, parse_decimal, parse_u64, string_of};

verus! {

/// The number of arguments that an operation takes.
pub open spec fn arity(op: BuiltIn) -> u8 {
    match op {
        BuiltIn::GetInputLine => 0,
        BuiltIn::Print | BuiltIn::PrintLine | BuiltIn::Not | BuiltIn::Sqrt | BuiltIn::StrToInt
        | BuiltIn::ListLen => 1,
        _ => 2,
    }
}

/// The name under which a program calls an operation.
pub open spec fn name_of(op: BuiltIn) -> Seq<char> {
    match op {
        BuiltIn::Print => "print"@,
        BuiltIn::PrintLine => "print_line"@,
        BuiltIn::Add => "+"@,
        BuiltIn::Sub => "-"@,
        BuiltIn::Mul => "*"@,
        BuiltIn::Div => "/"@,
        BuiltIn::Mod => "mod"@,
        BuiltIn::Less => "<"@,
        BuiltIn::Greater => ">"@,
        BuiltIn::Equal => "eq"@,
        BuiltIn::Not => "not"@,
        BuiltIn::Sqrt => "sqrt"@,
        BuiltIn::GetInputLine => "get_input_line"@,
        BuiltIn::JoinStr => "join_str"@,
        BuiltIn::StrToInt => "str_to_int"@,
        BuiltIn::ListLen => "list_len"@,
        BuiltIn::ListNth => "list_nth"@,
        BuiltIn::ListPush => "list_push"@,
    }
}

/// The value that stands for an operation before any argument is applied.
pub open spec fn fresh(op: BuiltIn) -> Term {
    Term::BuiltInFn(arity(op), op, Seq::empty())
}

/// `frame` with `op` bound under its name.
pub open spec fn with_op(frame: Map<Seq<char>, Term>, op: BuiltIn) -> Map<Seq<char>, Term> {
    frame.insert(name_of(op), fresh(op))
}

/// The frame that holds every built-in function under its name.
pub open spec fn registry() -> Map<Seq<char>, Term> {
    let f0 = Map::<Seq<char>, Term>::empty();
    let f1 = with_op(with_op(with_op(f0, BuiltIn::Print), BuiltIn::PrintLine), BuiltIn::Add);
    let f2 = with_op(with_op(with_op(f1, BuiltIn::Div), BuiltIn::Sub), BuiltIn::Mul);
    let f3 = with_op(with_op(with_op(f2, BuiltIn::Less), BuiltIn::Greater), BuiltIn::Equal);
    let f4 = with_op(with_op(with_op(f3, BuiltIn::Not), BuiltIn::Mod), BuiltIn::Sqrt);
    let f5 = with_op(
        with_op(with_op(f4, BuiltIn::GetInputLine), BuiltIn::JoinStr),
        BuiltIn::StrToInt,
    );
    with_op(with_op(with_op(f5, BuiltIn::ListLen), BuiltIn::ListNth), BuiltIn::ListPush)
}

impl BuiltIn {
    /// The number of arguments that this operation takes.
    pub fn arity(&self) -> (n: u8)
        ensures
            n == arity(*self),
    {
        match self {
            BuiltIn::GetInputLine => 0,
            BuiltIn::Print | BuiltIn::PrintLine | BuiltIn::Not | BuiltIn::Sqrt | BuiltIn::StrToInt
            | BuiltIn::ListLen => 1,
            _ => 2,
        }
    }

    /// The name under which a program calls this operation.
    pub fn name(&self) -> (out: String)
        ensures
            out@ == name_of(*self),
    {
        match self {
            BuiltIn::Print => String::from_str("print"),
            BuiltIn::PrintLine => String::from_str("print_line"),
            BuiltIn::Add => String::from_str("+"),
            BuiltIn::Sub => String::from_str("-"),
            BuiltIn::Mul => String::from_str("*"),
            BuiltIn::Div => String::from_str("/"),
            BuiltIn::Mod => String::from_str("mod"),
            BuiltIn::Less => String::from_str("<"),
            BuiltIn::Greater => String::from_str(">"),
            BuiltIn::Equal => String::from_str("eq"),
            BuiltIn::Not => String::from_str("not"),
            BuiltIn::Sqrt => String::from_str("sqrt"),
            BuiltIn::GetInputLine => String::from_str("get_input_line"),
            BuiltIn::JoinStr => String::from_str("join_str"),
            BuiltIn::StrToInt => String::from_str("str_to_int"),
            BuiltIn::ListLen => String::from_str("list_len"),
            BuiltIn::ListNth => String::from_str("list_nth"),
            BuiltIn::ListPush => String::from_str("list_push"),
        }
    }
}

/// Binds `op`, with no argument applied, under its name.
fn register(scope: &mut EvaluationScope, op: BuiltIn)
    ensures
        final(scope)@ == with_op(old(scope)@, op),
{
    let value = Expression::BuiltInFn(op.arity(), op, Vec::new());
    assert(value@ =~= fresh(op)) by {
        assert(terms_of(Seq::<Expression>::empty()) =~= Seq::<Term>::empty());
    }
    scope.insert(op.name(), value);
}

/// The frame that holds every built-in function under its name.
pub fn builtin_functions() -> (scope: EvaluationScope)
    ensures
        scope@ == registry(),
{
    let mut scope = EvaluationScope::new_empty();
    register(&mut scope, BuiltIn::Print);
    register(&mut scope, BuiltIn::PrintLine);
    register(&mut scope, BuiltIn::Add);
    register(&mut scope, BuiltIn::Div);
    register(&mut scope, BuiltIn::Sub);
    register(&mut scope, BuiltIn::Mul);
    register(&mut scope, BuiltIn::Less);
    register(&mut scope, BuiltIn::Greater);
    register(&mut scope, BuiltIn::Equal);
    register(&mut scope, BuiltIn::Not);
    register(&mut scope, BuiltIn::Mod);
    register(&mut scope, BuiltIn::Sqrt);
    register(&mut scope, BuiltIn::GetInputLine);
    register(&mut scope, BuiltIn::JoinStr);
    register(&mut scope, BuiltIn::StrToInt);
    register(&mut scope, BuiltIn::ListLen);
    register(&mut scope, BuiltIn::ListNth);
    register(&mut scope, BuiltIn::ListPush);
    scope
}

/// A count of arguments as a failure reports it: counts above 255 are
/// reported as 255.
pub open spec fn clip(n: nat) -> u8 {
    if n < 255 {
        n as u8
    } else {
        255u8
    }
}

/// What printing a value writes: the raw contents of a text, the display form
/// of anything else.
pub open spec fn shown(t: Term) -> Seq<char> {
    match t {
        Term::StringValue(s) => s,
        _ => render(t),
    }
}

/// A console line without its line end: one trailing line feed is removed,
/// and then one trailing carriage return.
pub open spec fn strip_line_end(line: Seq<char>) -> Seq<char> {
    if line.len() > 0 && line.last() == '\n' {
        let cut = line.drop_last();
        if cut.len() > 0 && cut.last() == '\r' {
            cut.drop_last()
        } else {
            cut
        }
    } else {
        line
    }
}

/// The result of a binary operation on two integers. The arithmetic
/// operations are those of the natural numbers where the result is a natural
/// number that fits in 64 bits; division and remainder by zero fail, and so
/// does a result that does not fit. An operation that does not take two
/// integers has no such result, and `Null` stands for it.
pub open spec fn numeric(op: BuiltIn, a: u64, b: u64) -> Result<Term, Fault> {
    match op {
        BuiltIn::Add => if a + b <= u64::MAX {
            Ok(Term::IntegerValue((a + b) as u64))
        } else {
            Err(Fault::ArithmeticOverflow)
        },
        BuiltIn::Sub => if a >= b {
            Ok(Term::IntegerValue((a - b) as u64))
        } else {
            Err(Fault::ArithmeticOverflow)
        },
        BuiltIn::Mul => if a * b <= u64::MAX {
            Ok(Term::IntegerValue((a * b) as u64))
        } else {
            Err(Fault::ArithmeticOverflow)
        },
        BuiltIn::Div => if b == 0 {
            Err(Fault::DivisionByZero)
        } else {
            Ok(Term::IntegerValue(a / b))
        },
        BuiltIn::Mod => if b == 0 {
            Err(Fault::DivisionByZero)
        } else {
            Ok(Term::IntegerValue(a % b))
        },
        BuiltIn::Less => Ok(Term::BooleanValue(a < b)),
        BuiltIn::Greater => Ok(Term::BooleanValue(a > b)),
        _ => Ok(Term::Null),
    }
}

/// Whether an operation takes two integers.
pub open spec fn is_numeric(op: BuiltIn) -> bool {
    op == BuiltIn::Add || op == BuiltIn::Sub || op == BuiltIn::Mul || op == BuiltIn::Div || op
        == BuiltIn::Mod || op == BuiltIn::Less || op == BuiltIn::Greater
}

/// The value that an operation returns on a full argument buffer.
pub open spec fn compute(op: BuiltIn, args: Seq<Term>, m: Machine) -> Result<Term, Fault>
    recommends
        args.len() == arity(op),
{
    match op {
        BuiltIn::Print | BuiltIn::PrintLine => Ok(Term::Null),
        BuiltIn::Equal => Ok(Term::BooleanValue(term_eq(args[0], args[1]))),
        BuiltIn::Not => match expect_boolean(args[0]) {
            Ok(b) => Ok(Term::BooleanValue(!b)),
            Err(e) => Err(e),
        },
        BuiltIn::Sqrt => match expect_integer(args[0]) {
            Ok(n) => Ok(Term::IntegerValue(floor_sqrt_of(n as nat) as u64)),
            Err(e) => Err(e),
        },
        BuiltIn::GetInputLine => if m.input.len() > 0 {
            Ok(Term::StringValue(strip_line_end(m.input[0])))
        } else if m.input_open {
            Err(Fault::InputPending)
        } else {
            Ok(Term::StringValue(Seq::empty()))
        },
        BuiltIn::JoinStr => match expect_text(args[0]) {
            Ok(a) => match expect_text(args[1]) {
                Ok(b) => Ok(Term::StringValue(a + b)),
                Err(e) => Err(e),
            },
            Err(e) => Err(e),
        },
        BuiltIn::StrToInt => match expect_text(args[0]) {
            Ok(s) => match parse_decimal(s) {
                Some(n) => Ok(Term::IntegerValue(n)),
                None => Err(Fault::MalformedInteger(s)),
            },
            Err(e) => Err(e),
        },
        BuiltIn::ListLen => match expect_list(args[0]) {
            Ok(items) => Ok(Term::IntegerValue(items.len() as u64)),
            Err(e) => Err(e),
        },
        BuiltIn::ListNth => match expect_integer(args[0]) {
            Ok(index) => match expect_list(args[1]) {
                Ok(items) => if index < items.len() {
                    Ok(items[index as int])
                } else {
                    Err(Fault::IndexOutOfRange(index, items.len() as u64))
                },
                Err(e) => Err(e),
            },
            Err(e) => Err(e),
        },
        BuiltIn::ListPush => match expect_list(args[0]) {
            Ok(items) => Ok(Term::List(items.push(args[1]))),
            Err(e) => Err(e),
        },
        BuiltIn::Add | BuiltIn::Sub | BuiltIn::Mul | BuiltIn::Div | BuiltIn::Mod | BuiltIn::Less
        | BuiltIn::Greater => match expect_integer(args[0]) {
            Ok(a) => match expect_integer(args[1]) {
                Ok(b) => numeric(op, a, b),
                Err(e) => Err(e),
            },
            Err(e) => Err(e),
        },
    }
}

/// What an operation does to the context on a full argument buffer: printing
/// writes to the console, reading a line consumes it where one is queued,
/// and nothing else changes anything.
pub open spec fn effect(op: BuiltIn, args: Seq<Term>, m: Machine) -> Machine
    recommends
        args.len() == arity(op),
{
    match op {
        BuiltIn::Print => m.write(shown(args[0])),
        BuiltIn::PrintLine => m.write(shown(args[0]) + "\n"@),
        BuiltIn::GetInputLine => m.skip_line(),
        _ => m,
    }
}

/// The outcome of running an operation on an argument buffer, and the
/// context afterwards. A buffer of the wrong length is an arity mismatch.
pub open spec fn run_builtin(op: BuiltIn, args: Seq<Term>, m: Machine) -> (
    Result<Term, Fault>,
    Machine,
) {
    if args.len() != arity(op) {
        (Err(Fault::ArityMismatch(name_of(op), arity(op), clip(args.len()))), m)
    } else {
        (compute(op, args, m), effect(op, args, m))
    }
}

/// On two integers, `+`, `-`, `*`, `/` and `mod` return what the operation
/// gives on the natural numbers whenever that is a natural number below
/// 2^64, and fail otherwise: with a division by zero for `/` and `mod` by
/// zero, with an overflow for the rest. The context is left as it was.
pub proof fn lemma_arithmetic(op: BuiltIn, a: u64, b: u64, m: Machine)
    requires
        op == BuiltIn::Add || op == BuiltIn::Sub || op == BuiltIn::Mul || op == BuiltIn::Div || op
            == BuiltIn::Mod,
    ensures
        run_builtin(op, seq![Term::IntegerValue(a), Term::IntegerValue(b)], m).1 == m,
        ({
            let exact: int = match op {
                BuiltIn::Add => a + b,
                BuiltIn::Sub => a - b,
                BuiltIn::Mul => a * b,
                BuiltIn::Div => if b == 0 {
                    -1
                } else {
                    a as int / b as int
                },
                _ => if b == 0 {
                    -1
                } else {
                    a as int % b as int
                },
            };
            let got = run_builtin(op, seq![Term::IntegerValue(a), Term::IntegerValue(b)], m).0;
            if (op == BuiltIn::Div || op == BuiltIn::Mod) && b == 0 {
                got == Err::<Term, Fault>(Fault::DivisionByZero)
            } else if 0 <= exact <= u64::MAX {
                got == Ok::<Term, Fault>(Term::IntegerValue(exact as u64))
            } else {
                got == Err::<Term, Fault>(Fault::ArithmeticOverflow)
            }
        }),
{
}

/// A console line without its line end.
pub fn strip_line(line: &String) -> (out: String)
    ensures
        out@ == strip_line_end(line@),
{
    let mut chars = chars_of(line.as_str());
    let n: usize = chars.len();
    if n > 0 && chars[n - 1] == '\n' {
        chars.pop();
        if n > 1 && chars[n - 2] == '\r' {
            chars.pop();
        }
    }
    string_of(&chars)
}

/// A count of arguments as a failure reports it.
fn count_as_u8(n: usize) -> (c: u8)
    ensures
        c == clip(n as nat),
{
    if n < 255 {
        n as u8
    } else {
        255
    }
}

/// Runs a binary operation on two integers.
fn run_numeric(op: BuiltIn, a: u64, b: u64) -> (r: Result<Expression, EvalError>)
    requires
        is_numeric(op),
    ensures
        outcome(r) == numeric(op, a, b),
{
    match op {
        BuiltIn::Add => match a.checked_add(b) {
            Some(sum) => Ok(Expression::IntegerValue(sum)),
            None => Err(EvalError::ArithmeticOverflow),
        },
        BuiltIn::Sub => if a >= b {
            Ok(Expression::IntegerValue(a - b))
        } else {
            Err(EvalError::ArithmeticOverflow)
        },
        BuiltIn::Mul => match a.checked_mul(b) {
            Some(product) => Ok(Expression::IntegerValue(product)),
            None => Err(EvalError::ArithmeticOverflow),
        },
        BuiltIn::Div => if b == 0 {
            Err(EvalError::DivisionByZero)
        } else {
            Ok(Expression::IntegerValue(a / b))
        },
        BuiltIn::Mod => if b == 0 {
            Err(EvalError::DivisionByZero)
        } else {
            Ok(Expression::IntegerValue(a % b))
        },
        BuiltIn::Less => Ok(Expression::BooleanValue(a < b)),
        BuiltIn::Greater => Ok(Expression::BooleanValue(a > b)),
        _ => Ok(Expression::Null),
    }
}

/// What printing `value` writes, with a line feed after it where
/// `line_end` is set.
fn text_to_print(value: &Expression, line_end: bool) -> (out: String)
    ensures
        out@ == if line_end {
            shown(value@) + "\n"@
        } else {
            shown(value@)
        },
{
    let mut out = match value {
        Expression::StringValue(s) => s.clone(),
        other => other.render(),
    };
    if line_end {
        out.append("\n");
    }
    out
}

/// Runs an operation on an argument buffer.
pub fn run(op: BuiltIn, args: &Vec<Expression>, ctx: &mut EvaluationContext) -> (r: Result<
    Expression,
    EvalError,
>)
    ensures
        outcome(r) == run_builtin(op, terms_of(args@), old(ctx)@).0,
        final(ctx)@ == run_builtin(op, terms_of(args@), old(ctx)@).1,
        final(ctx)@.frames == old(ctx)@.frames,
        final(ctx)@.budget == old(ctx)@.budget,
{
    let ghost terms = terms_of(args@);
    if args.len() != op.arity() as usize {
        return Err(EvalError::ArityMismatch(op.name(), op.arity(), count_as_u8(args.len())));
    }
    match op {
        BuiltIn::Print => {
            assert(terms[0] == args@[0]@);
            let text = text_to_print(&args[0], false);
            ctx.write_output(text.as_str());
            Ok(Expression::Null)
        },
        BuiltIn::PrintLine => {
            assert(terms[0] == args@[0]@);
            let text = text_to_print(&args[0], true);
            ctx.write_output(text.as_str());
            Ok(Expression::Null)
        },
        BuiltIn::Equal => {
            assert(terms[0] == args@[0]@ && terms[1] == args@[1]@);
            Ok(Expression::BooleanValue(args[0].equals(&args[1])))
        },
        BuiltIn::Not => {
            assert(terms[0] == args@[0]@);
            match args[0].boolean_value() {
                Ok(b) => Ok(Expression::BooleanValue(!b)),
                Err(e) => Err(e),
            }
        },
        BuiltIn::Sqrt => {
            assert(terms[0] == args@[0]@);
            match args[0].integer_value() {
                Ok(n) => Ok(Expression::IntegerValue(floor_sqrt(n))),
                Err(e) => Err(e),
            }
        },
        BuiltIn::GetInputLine => {
            match ctx.read_line() {
                Some(line) => Ok(Expression::StringValue(strip_line(&line))),
                None => if ctx.input_open() {
                    Err(EvalError::InputPending)
                } else {
                    Ok(Expression::StringValue(String::new()))
                },
            }
        },
        BuiltIn::JoinStr => {
            assert(terms[0] == args@[0]@ && terms[1] == args@[1]@);
            match args[0].string_value() {
                Ok(a) => match args[1].string_value() {
                    Ok(b) => Ok(Expression::StringValue(a.concat(b.as_str()))),
                    Err(e) => Err(e),
                },
                Err(e) => Err(e),
            }
        },
        BuiltIn::StrToInt => {
            assert(terms[0] == args@[0]@);
            match args[0].string_value() {
                Ok(s) => match parse_u64(s.as_str()) {
                    Some(n) => Ok(Expression::IntegerValue(n)),
                    None => Err(EvalError::MalformedInteger(s)),
                },
                Err(e) => Err(e),
            }
        },
        BuiltIn::ListLen => {
            assert(terms[0] == args@[0]@);
            match &args[0] {
                Expression::List(items) => {
                    assert(terms_of(items@).len() == items@.len());
                    Ok(Expression::IntegerValue(items.len() as u64))
                },
                other => Err(EvalError::TypeMismatch(ValueKind::List, other.render())),
            }
        },
        BuiltIn::ListNth => {
            assert(terms[0] == args@[0]@ && terms[1] == args@[1]@);
            match args[0].integer_value() {
                Ok(index) => match &args[1] {
                    Expression::List(items) => {
                        assert(terms_of(items@).len() == items@.len());
                        if index < items.len() as u64 {
                            assert(terms_of(items@)[index as int] == items@[index as int]@);
                            Ok(items[index as usize].clone())
                        } else {
                            Err(EvalError::IndexOutOfRange(index, items.len() as u64))
                        }
                    },
                    other => Err(EvalError::TypeMismatch(ValueKind::List, other.render())),
                },
                Err(e) => Err(e),
            }
        },
        BuiltIn::ListPush => {
            assert(terms[0] == args@[0]@ && terms[1] == args@[1]@);
            match &args[0] {
                Expression::List(items) => {
                    let mut longer = clone_all(items);
                    let ghost before = longer@;
                    longer.push(args[1].clone());
                    assert(terms_of(longer@) =~= terms_of(items@).push(args@[1]@)) by {
                        assert forall|j: int| 0 <= j < before.len() implies terms_of(before)[j]
                            == terms_of(longer@)[j] by {}
                    }
                    Ok(Expression::List(longer))
                },
                other => Err(EvalError::TypeMismatch(ValueKind::List, other.render())),
            }
        },
        BuiltIn::Add | BuiltIn::Sub | BuiltIn::Mul | BuiltIn::Div | BuiltIn::Mod | BuiltIn::Less
        | BuiltIn::Greater => {
            assert(terms[0] == args@[0]@ && terms[1] == args@[1]@);
            match args[0].integer_value() {
                Ok(a) => match args[1].integer_value() {
                    Ok(b) => run_numeric(op, a, b),
                    Err(e) => Err(e),
                },
                Err(e) => Err(e),
            }
        },
    }
}

} // verus!
