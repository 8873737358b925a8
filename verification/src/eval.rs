//! The evaluator: what an expression evaluates to in a context, as a
//! mathematical function, and the executable tree walk that computes it.

use vstd::prelude::*;
use crate::ast::{BuiltIn, Expression, Term, expect_boolean, terms_of};
use crate::builtin_functions::{run, run_builtin};
use crate::error::{EvalError, Fault, outcome};
use crate::render::render;
use crate::scope::{EvaluationContext, Machine};

verus! {

/// The name by which failures refer to a callee: its own where the callee
/// expression is an identifier, a placeholder otherwise.
pub open spec fn callee_name(f: Term) -> Seq<char> {
    match f {
        Term::Identifier(name) => name,
        _ => "<anonymous>"@,
    }
}

/// One argument supplied to a built-in that awaits `k` of them, `k` being at
/// least 1: while more are awaited the result is a built-in that has taken
/// this one and awaits one fewer; the last one runs the operation.
pub open spec fn supply(k: u8, op: BuiltIn, buffer: Seq<Term>, value: Term, m: Machine) -> (
    Result<Term, Fault>,
    Machine,
) {
    if k > 1 {
        (Ok(Term::BuiltInFn((k - 1) as u8, op, buffer.push(value))), m)
    } else {
        run_builtin(op, buffer.push(value), m)
    }
}

/// The outcome of evaluating `t` in `m`, and the context afterwards. Each
/// evaluation takes one step from the budget and fails where none is left;
/// it runs in a frame of its own, which is gone when it ends, however it
/// ends.
///
/// Where one evaluation follows another, the definitions below go on only
/// if the first one left the budget no larger than it found it. It always
/// does (`laws::lemma_eval_frames`); the condition is there to make the
/// recursion well-founded.
pub open spec fn eval(t: Term, m: Machine) -> (Result<Term, Fault>, Machine)
    decreases m.budget, 0int, 0int,
{
    if m.budget == 0 {
        (Err(Fault::BudgetExhausted), m)
    } else {
        let (r, after) = eval_inner(t, m.spend().enter());
        (r, after.exit())
    }
}

/// What each variant does inside the frame of its evaluation.
pub open spec fn eval_inner(t: Term, m: Machine) -> (Result<Term, Fault>, Machine)
    decreases m.budget, 3int, 0int,
{
    match t {
        Term::Identifier(name) => (
            match m.resolve(name) {
                Some(value) => Ok(value),
                None => Err(Fault::UnknownIdentifier(name)),
            },
            m,
        ),
        Term::Block(items) => eval_block(items, 0, Term::Null, m),
        Term::List(items) => eval_list(items, 0, Seq::empty(), m),
        Term::Program(items) => eval_program(items, 0, m),
        Term::LetBinding(name, value) => {
            let (r, m1) = eval(*value, m);
            match r {
                Ok(v) => (Ok(v), m1.bind_outer(name, v)),
                Err(e) => (Err(e), m1),
            }
        },
        Term::IfExpression(c, when_true, when_false) => {
            let (rc, m1) = eval(*c, m);
            match rc {
                Ok(cv) => match expect_boolean(cv) {
                    Ok(flag) => if m1.budget <= m.budget {
                        eval(
                            if flag {
                                *when_true
                            } else {
                                *when_false
                            },
                            m1,
                        )
                    } else {
                        (Err(Fault::BudgetExhausted), m1)
                    },
                    Err(e) => (Err(e), m1),
                },
                Err(e) => (Err(e), m1),
            }
        },
        Term::While(c, body) => eval_while(*c, *body, Term::Null, m),
        Term::FnCall(f, a) => eval_call(
            *f,
            match a {
                Some(arg) => Some(*arg),
                None => None,
            },
            m,
        ),
        _ => (Ok(t), m),
    }
}

/// The items of a block from the `i`-th on, one after the other; the value
/// is that of the last one, or `last` where none is left.
pub open spec fn eval_block(items: Seq<Term>, i: nat, last: Term, m: Machine) -> (
    Result<Term, Fault>,
    Machine,
)
    decreases m.budget, 2int, items.len() - i,
{
    if i >= items.len() {
        (Ok(last), m)
    } else {
        let (r, m1) = eval(items[i as int], m);
        match r {
            Ok(v) => if m1.budget <= m.budget {
                eval_block(items, i + 1, v, m1)
            } else {
                (Err(Fault::BudgetExhausted), m1)
            },
            Err(e) => (Err(e), m1),
        }
    }
}

/// The elements of a list from the `i`-th on, one after the other; the value
/// is the list of `done` followed by their values.
pub open spec fn eval_list(items: Seq<Term>, i: nat, done: Seq<Term>, m: Machine) -> (
    Result<Term, Fault>,
    Machine,
)
    decreases m.budget, 2int, items.len() - i,
{
    if i >= items.len() {
        (Ok(Term::List(done)), m)
    } else {
        let (r, m1) = eval(items[i as int], m);
        match r {
            Ok(v) => if m1.budget <= m.budget {
                eval_list(items, i + 1, done.push(v), m1)
            } else {
                (Err(Fault::BudgetExhausted), m1)
            },
            Err(e) => (Err(e), m1),
        }
    }
}

/// The items of a program from the `i`-th on, one after the other, for their
/// effect; the value is the end-of-program mark.
pub open spec fn eval_program(items: Seq<Term>, i: nat, m: Machine) -> (
    Result<Term, Fault>,
    Machine,
)
    decreases m.budget, 2int, items.len() - i,
{
    if i >= items.len() {
        (Ok(Term::EndOfProgram), m)
    } else {
        let (r, m1) = eval(items[i as int], m);
        match r {
            Ok(_) => if m1.budget <= m.budget {
                eval_program(items, i + 1, m1)
            } else {
                (Err(Fault::BudgetExhausted), m1)
            },
            Err(e) => (Err(e), m1),
        }
    }
}

/// A loop: the condition must be a truth value; while it is true the body
/// runs. The value is that of the last run of the body, or `last` where the
/// body does not run again.
pub open spec fn eval_while(c: Term, body: Term, last: Term, m: Machine) -> (
    Result<Term, Fault>,
    Machine,
)
    decreases m.budget, 2int, 0int,
{
    let (rc, m1) = eval(c, m);
    match rc {
        Ok(cv) => match expect_boolean(cv) {
            Ok(flag) => if !flag {
                (Ok(last), m1)
            } else if m1.budget < m.budget {
                let (rb, m2) = eval(body, m1);
                match rb {
                    Ok(v) => if m2.budget <= m1.budget {
                        eval_while(c, body, v, m2)
                    } else {
                        (Err(Fault::BudgetExhausted), m2)
                    },
                    Err(e) => (Err(e), m2),
                }
            } else {
                (Err(Fault::BudgetExhausted), m1)
            },
            Err(e) => (Err(e), m1),
        },
        Err(e) => (Err(e), m1),
    }
}

/// A call: the callee is evaluated first and must be a function or a
/// built-in. A function takes an argument exactly where it has a parameter;
/// the argument's value is bound to the parameter in the frame below the
/// call's own, and the body is evaluated. A built-in that awaits no argument
/// runs on the empty buffer, whatever the call supplies; one that awaits
/// some takes the value of the argument.
pub open spec fn eval_call(f: Term, a: Option<Term>, m: Machine) -> (Result<Term, Fault>, Machine)
    decreases m.budget, 2int, 0int,
{
    let (rf, m1) = eval(f, m);
    match rf {
        Ok(Term::Fn(param, body)) => match (param, a) {
            (Some(p), Some(arg)) => if m1.budget <= m.budget {
                let (ra, m2) = eval(arg, m1);
                match ra {
                    Ok(v) => if m2.budget <= m1.budget {
                        eval(*body, m2.bind_outer(p, v))
                    } else {
                        (Err(Fault::BudgetExhausted), m2)
                    },
                    Err(e) => (Err(e), m2),
                }
            } else {
                (Err(Fault::BudgetExhausted), m1)
            },
            (None, None) => if m1.budget <= m.budget {
                eval(*body, m1)
            } else {
                (Err(Fault::BudgetExhausted), m1)
            },
            (Some(_), None) => (Err(Fault::ArityMismatch(callee_name(f), 1, 0)), m1),
            (None, Some(_)) => (Err(Fault::ArityMismatch(callee_name(f), 0, 1)), m1),
        },
        Ok(Term::BuiltInFn(k, op, buffer)) => if k == 0 {
            run_builtin(op, Seq::empty(), m1)
        } else {
            match a {
                Some(arg) => if m1.budget <= m.budget {
                    let (ra, m2) = eval(arg, m1);
                    match ra {
                        Ok(v) => supply(k, op, buffer, v, m2),
                        Err(e) => (Err(e), m2),
                    }
                } else {
                    (Err(Fault::BudgetExhausted), m1)
                },
                None => (Err(Fault::ArityMismatch(callee_name(f), k, 0)), m1),
            }
        },
        Ok(other) => (Err(Fault::NotCallable(render(other))), m1),
        Err(e) => (Err(e), m1),
    }
}

impl Expression {
    /// Resolves a name against the stack.
    fn evaluate_identifier(&self, ctx: &EvaluationContext, identifier: String) -> (r: Result<
        Expression,
        EvalError,
    >)
        ensures
            outcome(r) == eval_inner(Term::Identifier(identifier@), ctx@).0,
    {
        match ctx.resolve_var(identifier.clone()) {
            Some(value) => Ok(value),
            None => Err(EvalError::UnknownIdentifier(identifier)),
        }
    }

    /// Evaluates the items of a block in order; the value is the last one's.
    fn evaluate_block(&self, ctx: &mut EvaluationContext, block_body: &Vec<Expression>) -> (r:
        Result<Expression, EvalError>)
        ensures
            outcome(r) == eval_block(terms_of(block_body@), 0, Term::Null, old(ctx)@).0,
            final(ctx)@ == eval_block(terms_of(block_body@), 0, Term::Null, old(ctx)@).1,
            final(ctx)@.frames.len() == old(ctx)@.frames.len(),
            final(ctx)@.budget <= old(ctx)@.budget,
        decreases old(ctx)@.budget, 2int, block_body@.len(),
    {
        let ghost start = ctx@;
        let ghost items = terms_of(block_body@);
        let mut return_value = Expression::Null;
        let mut i: usize = 0;
        while i < block_body.len()
            invariant
                i <= block_body@.len(),
                items == terms_of(block_body@),
                start == old(ctx)@,
                ctx@.frames.len() == start.frames.len(),
                ctx@.budget <= start.budget,
                eval_block(items, 0, Term::Null, start) == eval_block(
                    items,
                    i as nat,
                    return_value@,
                    ctx@,
                ),
            decreases block_body@.len() - i,
        {
            assert(items[i as int] == block_body@[i as int]@);
            match block_body[i].evaluate(ctx) {
                Ok(value) => {
                    return_value = value;
                },
                Err(e) => {
                    return Err(e);
                },
            }
            i += 1;
        }
        Ok(return_value)
    }

    /// Evaluates the items of a program in order, for their effect.
    fn evaluate_program(&self, ctx: &mut EvaluationContext, expressions: &Vec<Expression>) -> (r:
        Result<Expression, EvalError>)
        ensures
            outcome(r) == eval_program(terms_of(expressions@), 0, old(ctx)@).0,
            final(ctx)@ == eval_program(terms_of(expressions@), 0, old(ctx)@).1,
            final(ctx)@.frames.len() == old(ctx)@.frames.len(),
            final(ctx)@.budget <= old(ctx)@.budget,
        decreases old(ctx)@.budget, 2int, expressions@.len(),
    {
        let ghost start = ctx@;
        let ghost items = terms_of(expressions@);
        let mut i: usize = 0;
        while i < expressions.len()
            invariant
                i <= expressions@.len(),
                items == terms_of(expressions@),
                start == old(ctx)@,
                ctx@.frames.len() == start.frames.len(),
                ctx@.budget <= start.budget,
                eval_program(items, 0, start) == eval_program(items, i as nat, ctx@),
            decreases expressions@.len() - i,
        {
            assert(items[i as int] == expressions@[i as int]@);
            match expressions[i].evaluate(ctx) {
                Ok(_) => {},
                Err(e) => {
                    return Err(e);
                },
            }
            i += 1;
        }
        Ok(Expression::EndOfProgram)
    }

    /// Evaluates `value` and binds it to `variable_name` in the frame below
    /// the top one.
    fn evaluate_let_binding(
        &self,
        ctx: &mut EvaluationContext,
        variable_name: &String,
        value: &Expression,
    ) -> (r: Result<Expression, EvalError>)
        requires
            old(ctx)@.frames.len() >= 2,
        ensures
            outcome(r) == eval_inner(
                Term::LetBinding(variable_name@, Box::new(value@)),
                old(ctx)@,
            ).0,
            final(ctx)@ == eval_inner(
                Term::LetBinding(variable_name@, Box::new(value@)),
                old(ctx)@,
            ).1,
            final(ctx)@.frames.len() == old(ctx)@.frames.len(),
            final(ctx)@.budget <= old(ctx)@.budget,
        decreases old(ctx)@.budget, 2int, 0int,
    {
        match value.evaluate(ctx) {
            Ok(evaluated_value) => {
                ctx.add_local_var(variable_name.clone(), evaluated_value.clone());
                Ok(evaluated_value)
            },
            Err(e) => Err(e),
        }
    }

    /// Evaluates the elements of a list in order.
    fn evaluate_list(&self, ctx: &mut EvaluationContext, expressions: &Vec<Expression>) -> (r:
        Result<Expression, EvalError>)
        ensures
            outcome(r) == eval_list(terms_of(expressions@), 0, Seq::empty(), old(ctx)@).0,
            final(ctx)@ == eval_list(terms_of(expressions@), 0, Seq::empty(), old(ctx)@).1,
            final(ctx)@.frames.len() == old(ctx)@.frames.len(),
            final(ctx)@.budget <= old(ctx)@.budget,
        decreases old(ctx)@.budget, 2int, expressions@.len(),
    {
        let ghost start = ctx@;
        let ghost items = terms_of(expressions@);
        let mut result_list: Vec<Expression> = Vec::new();
        let mut i: usize = 0;
        assert(terms_of(result_list@) =~= Seq::<Term>::empty());
        while i < expressions.len()
            invariant
                i <= expressions@.len(),
                items == terms_of(expressions@),
                start == old(ctx)@,
                ctx@.frames.len() == start.frames.len(),
                ctx@.budget <= start.budget,
                eval_list(items, 0, Seq::empty(), start) == eval_list(
                    items,
                    i as nat,
                    terms_of(result_list@),
                    ctx@,
                ),
            decreases expressions@.len() - i,
        {
            assert(items[i as int] == expressions@[i as int]@);
            let ghost done = terms_of(result_list@);
            match expressions[i].evaluate(ctx) {
                Ok(value) => {
                    result_list.push(value);
                    assert(terms_of(result_list@) =~= done.push(value@));
                },
                Err(e) => {
                    return Err(e);
                },
            }
            i += 1;
        }
        Ok(Expression::List(result_list))
    }

    /// Evaluates `condition` and then the branch that it selects.
    fn evaluate_if(
        &self,
        ctx: &mut EvaluationContext,
        condition: &Expression,
        when_true: &Expression,
        when_false: &Expression,
    ) -> (r: Result<Expression, EvalError>)
        ensures
            outcome(r) == eval_inner(
                Term::IfExpression(
                    Box::new(condition@),
                    Box::new(when_true@),
                    Box::new(when_false@),
                ),
                old(ctx)@,
            ).0,
            final(ctx)@ == eval_inner(
                Term::IfExpression(
                    Box::new(condition@),
                    Box::new(when_true@),
                    Box::new(when_false@),
                ),
                old(ctx)@,
            ).1,
            final(ctx)@.frames.len() == old(ctx)@.frames.len(),
            final(ctx)@.budget <= old(ctx)@.budget,
        decreases old(ctx)@.budget, 2int, 0int,
    {
        let decided = match condition.evaluate(ctx) {
            Ok(value) => value,
            Err(e) => {
                return Err(e);
            },
        };
        match decided.boolean_value() {
            Ok(flag) => if flag {
                when_true.evaluate(ctx)
            } else {
                when_false.evaluate(ctx)
            },
            Err(e) => Err(e),
        }
    }

    /// Evaluates `function` and calls what it evaluates to.
    fn evaluate_fn_call(
        &self,
        ctx: &mut EvaluationContext,
        function: &Expression,
        argument_value_opt: &Option<Expression>,
    ) -> (r: Result<Expression, EvalError>)
        requires
            old(ctx)@.frames.len() >= 2,
        ensures
            outcome(r) == eval_call(
                function@,
                match *argument_value_opt {
                    Some(arg) => Some(arg@),
                    None => None,
                },
                old(ctx)@,
            ).0,
            final(ctx)@ == eval_call(
                function@,
                match *argument_value_opt {
                    Some(arg) => Some(arg@),
                    None => None,
                },
                old(ctx)@,
            ).1,
            final(ctx)@.frames.len() == old(ctx)@.frames.len(),
            final(ctx)@.budget <= old(ctx)@.budget,
        decreases old(ctx)@.budget, 2int, 0int,
    {
        let function_name = match function {
            Expression::Identifier(name) => name.clone(),
            _ => String::from_str("<anonymous>"),
        };
        let callee = match function.evaluate(ctx) {
            Ok(value) => value,
            Err(e) => {
                return Err(e);
            },
        };
        match callee {
            Expression::Fn(argument_name, body) => {
                match (argument_name, argument_value_opt) {
                    (Some(name), Some(argument_value)) => {
                        let value = match argument_value.evaluate(ctx) {
                            Ok(value) => value,
                            Err(e) => {
                                return Err(e);
                            },
                        };
                        ctx.add_local_var(name, value);
                        body.evaluate(ctx)
                    },
                    (None, None) => body.evaluate(ctx),
                    (Some(_), None) => Err(EvalError::ArityMismatch(function_name, 1, 0)),
                    (None, Some(_)) => Err(EvalError::ArityMismatch(function_name, 0, 1)),
                }
            },
            Expression::BuiltInFn(argument_length, op, applied) => {
                if argument_length == 0 {
                    let none: Vec<Expression> = Vec::new();
                    assert(terms_of(none@) =~= Seq::<Term>::empty());
                    return run(op, &none, ctx);
                }
                match argument_value_opt {
                    Some(argument_value) => {
                        let value = match argument_value.evaluate(ctx) {
                            Ok(value) => value,
                            Err(e) => {
                                return Err(e);
                            },
                        };
                        let ghost before = terms_of(applied@);
                        let mut buffer = applied;
                        buffer.push(value);
                        assert(terms_of(buffer@) =~= before.push(value@));
                        if argument_length > 1 {
                            Ok(Expression::BuiltInFn(argument_length - 1, op, buffer))
                        } else {
                            run(op, &buffer, ctx)
                        }
                    },
                    None => Err(EvalError::ArityMismatch(function_name, argument_length, 0)),
                }
            },
            other => Err(EvalError::NotCallable(other.render())),
        }
    }

    /// Runs a loop: evaluates `condition`, and `body` after it as long as the
    /// condition is true.
    pub fn evaluate_while(
        &self,
        ctx: &mut EvaluationContext,
        condition: &Expression,
        body: &Expression,
    ) -> (r: Result<Expression, EvalError>)
        ensures
            outcome(r) == eval_while(condition@, body@, Term::Null, old(ctx)@).0,
            final(ctx)@ == eval_while(condition@, body@, Term::Null, old(ctx)@).1,
            final(ctx)@.frames.len() == old(ctx)@.frames.len(),
            final(ctx)@.budget <= old(ctx)@.budget,
        decreases old(ctx)@.budget, 2int, 0int,
    {
        let ghost start = ctx@;
        let mut result = Expression::Null;
        loop
            invariant
                start == old(ctx)@,
                ctx@.frames.len() == start.frames.len(),
                ctx@.budget <= start.budget,
                eval_while(condition@, body@, Term::Null, start) == eval_while(
                    condition@,
                    body@,
                    result@,
                    ctx@,
                ),
            decreases ctx@.budget,
        {
            let decided = match condition.evaluate(ctx) {
                Ok(value) => value,
                Err(e) => {
                    return Err(e);
                },
            };
            let flag = match decided.boolean_value() {
                Ok(flag) => flag,
                Err(e) => {
                    return Err(e);
                },
            };
            if !flag {
                return Ok(result);
            }
            match body.evaluate(ctx) {
                Ok(value) => {
                    result = value;
                },
                Err(e) => {
                    return Err(e);
                },
            }
        }
    }

    /// Evaluates this expression in `ctx`.
    pub fn evaluate(&self, ctx: &mut EvaluationContext) -> (r: Result<Expression, EvalError>)
        ensures
            outcome(r) == eval(self@, old(ctx)@).0,
            final(ctx)@ == eval(self@, old(ctx)@).1,
            final(ctx)@.frames.len() == old(ctx)@.frames.len(),
            final(ctx)@.budget <= old(ctx)@.budget,
            r is Ok ==> final(ctx)@.budget < old(ctx)@.budget,
        decreases old(ctx)@.budget, 0int, 0int,
    {
        proof {
            ctx.lemma_depth();
        }
        if !ctx.spend() {
            return Err(EvalError::BudgetExhausted);
        }
        ctx.enter_scope();
        let result = match self {
            Expression::Identifier(identifier) => self.evaluate_identifier(
                ctx,
                identifier.clone(),
            ),
            Expression::Block(expressions) => self.evaluate_block(ctx, expressions),
            Expression::List(expressions) => self.evaluate_list(ctx, expressions),
            Expression::Program(expressions) => self.evaluate_program(ctx, expressions),
            Expression::LetBinding(variable_name, value) => self.evaluate_let_binding(
                ctx,
                variable_name,
                value,
            ),
            Expression::FnCall(function, argument_value) => self.evaluate_fn_call(
                ctx,
                function,
                argument_value,
            ),
            Expression::While(condition, body) => self.evaluate_while(ctx, condition, body),
            Expression::IfExpression(condition, if_block, else_block) => self.evaluate_if(
                ctx,
                condition,
                if_block,
                else_block,
            ),
            _ => Ok(self.clone()),
        };
        ctx.exit_scope();
        result
    }
}

} // verus!
