//! The failures of evaluation, kept apart by category.

use vstd::prelude::*;
use crate::text::{decimal, u64_to_text};

verus! {

/// The kinds of value that an operation can ask for.
#[derive(Clone, Copy, Debug, PartialEq, Eq, Structural)]
pub enum ValueKind {
    Integer,
    Text,
    Boolean,
    Identifier,
    List,
}

/// The model of an evaluation failure.
pub enum Fault {
    /// The name is bound in no frame.
    UnknownIdentifier(Seq<char>),
    /// A value of the given kind was required; the text is the display form
    /// of what was found.
    TypeMismatch(ValueKind, Seq<char>),
    /// The callee's name, the number of arguments it awaits, the number given.
    ArityMismatch(Seq<char>, u8, u8),
    /// The display form of the value that was called.
    NotCallable(Seq<char>),
    /// The index asked for and the length of the list.
    IndexOutOfRange(u64, u64),
    /// The text that does not denote an integer.
    MalformedInteger(Seq<char>),
    /// A console line was asked for where none is queued and more may arrive.
    InputPending,
    DivisionByZero,
    /// The result of an arithmetic operation does not fit in 64 bits.
    ArithmeticOverflow,
    /// The evaluation budget was used up.
    BudgetExhausted,
}

/// A failure of evaluation.
#[derive(Debug)]
pub enum EvalError {
    /// The name is bound in no frame.
    UnknownIdentifier(String),
    /// A value of the given kind was required; the text is the display form
    /// of what was found.
    TypeMismatch(ValueKind, String),
    /// The callee's name, the number of arguments it awaits, the number given.
    ArityMismatch(String, u8, u8),
    /// The display form of the value that was called.
    NotCallable(String),
    /// The index asked for and the length of the list.
    IndexOutOfRange(u64, u64),
    /// The text that does not denote an integer.
    MalformedInteger(String),
    /// A console line was asked for where none is queued and more may arrive.
    InputPending,
    DivisionByZero,
    /// The result of an arithmetic operation does not fit in 64 bits.
    ArithmeticOverflow,
    /// The evaluation budget was used up.
    BudgetExhausted,
}

impl View for EvalError {
    type V = Fault;

    open spec fn view(&self) -> Fault {
        match self {
            EvalError::UnknownIdentifier(name) => Fault::UnknownIdentifier(name@),
            EvalError::TypeMismatch(kind, found) => Fault::TypeMismatch(*kind, found@),
            EvalError::ArityMismatch(name, expected, got) => Fault::ArityMismatch(
                name@,
                *expected,
                *got,
            ),
            EvalError::NotCallable(callee) => Fault::NotCallable(callee@),
            EvalError::IndexOutOfRange(index, len) => Fault::IndexOutOfRange(*index, *len),
            EvalError::MalformedInteger(text) => Fault::MalformedInteger(text@),
            EvalError::InputPending => Fault::InputPending,
            EvalError::DivisionByZero => Fault::DivisionByZero,
            EvalError::ArithmeticOverflow => Fault::ArithmeticOverflow,
            EvalError::BudgetExhausted => Fault::BudgetExhausted,
        }
    }
}

/// The model of the outcome of an evaluation.
pub open spec fn outcome(r: Result<crate::ast::Expression, EvalError>) -> Result<
    crate::ast::Term,
    Fault,
> {
    match r {
        Ok(value) => Ok(value@),
        Err(e) => Err(e@),
    }
}

/// The name of a kind of value, as messages give it.
pub open spec fn kind_name(kind: ValueKind) -> Seq<char> {
    match kind {
        ValueKind::Integer => "integer"@,
        ValueKind::Text => "string"@,
        ValueKind::Boolean => "boolean"@,
        ValueKind::Identifier => "identifier"@,
        ValueKind::List => "list"@,
    }
}

/// The message that describes a failure.
pub open spec fn message_text(fault: Fault) -> Seq<char> {
    match fault {
        Fault::UnknownIdentifier(name) => "unknown identifier `"@ + name + "`"@,
        Fault::TypeMismatch(kind, found) => "expected "@ + kind_name(kind) + ", got `"@ + found
            + "`"@,
        Fault::ArityMismatch(name, expected, got) => "function `"@ + name + "` expected "@
            + decimal(expected as nat) + " arguments, got "@ + decimal(got as nat) + " instead"@,
        Fault::NotCallable(callee) => "trying to call `"@ + callee + "`, which is not a function"@,
        Fault::IndexOutOfRange(index, len) => "trying to access element #"@ + decimal(index as nat)
            + " of a list only containing "@ + decimal(len as nat) + " elements"@,
        Fault::MalformedInteger(text) => "cannot read `"@ + text + "` as an integer"@,
        Fault::InputPending => "no console input is ready"@,
        Fault::DivisionByZero => "division by zero"@,
        Fault::ArithmeticOverflow => "arithmetic overflow"@,
        Fault::BudgetExhausted => "evaluation budget exhausted"@,
    }
}

impl ValueKind {
    /// The name of this kind, as messages give it.
    pub fn name(&self) -> (out: String)
        ensures
            out@ == kind_name(*self),
    {
        match self {
            ValueKind::Integer => String::from_str("integer"),
            ValueKind::Text => String::from_str("string"),
            ValueKind::Boolean => String::from_str("boolean"),
            ValueKind::Identifier => String::from_str("identifier"),
            ValueKind::List => String::from_str("list"),
        }
    }
}

impl EvalError {
    /// The message that describes this failure.
    pub fn message(&self) -> (out: String)
        ensures
            out@ == message_text(self@),
    {
        match self {
            EvalError::UnknownIdentifier(name) => {
                let mut out = String::from_str("unknown identifier `");
                out.append(name.as_str());
                out.append("`");
                out
            },
            EvalError::TypeMismatch(kind, found) => {
                let mut out = String::from_str("expected ");
                out.append(kind.name().as_str());
                out.append(", got `");
                out.append(found.as_str());
                out.append("`");
                out
            },
            EvalError::ArityMismatch(name, expected, got) => {
                let mut out = String::from_str("function `");
                out.append(name.as_str());
                out.append("` expected ");
                out.append(u64_to_text(*expected as u64).as_str());
                out.append(" arguments, got ");
                out.append(u64_to_text(*got as u64).as_str());
                out.append(" instead");
                out
            },
            EvalError::NotCallable(callee) => {
                let mut out = String::from_str("trying to call `");
                out.append(callee.as_str());
                out.append("`, which is not a function");
                out
            },
            EvalError::IndexOutOfRange(index, len) => {
                let mut out = String::from_str("trying to access element #");
                out.append(u64_to_text(*index).as_str());
                out.append(" of a list only containing ");
                out.append(u64_to_text(*len).as_str());
                out.append(" elements");
                out
            },
            EvalError::MalformedInteger(text) => {
                let mut out = String::from_str("cannot read `");
                out.append(text.as_str());
                out.append("` as an integer");
                out
            },
            EvalError::InputPending => String::from_str("no console input is ready"),
            EvalError::DivisionByZero => String::from_str("division by zero"),
            EvalError::ArithmeticOverflow => String::from_str("arithmetic overflow"),
            EvalError::BudgetExhausted => String::from_str("evaluation budget exhausted"),
        }
    }
}

} // verus!
