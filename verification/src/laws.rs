//! What holds of every evaluation: which frames an evaluation can change,
//! how bindings become visible, how built-ins take their arguments, and that
//! evaluation ends in values.

use vstd::prelude::*;
use crate::ast::{BuiltIn, Term, expect_boolean};
use crate::builtin_functions::{arity, registry, run_builtin};
use crate::error::Fault;
use crate::eval::{
    eval,
    eval_block,
    eval_call,
    eval_inner,
    eval_list,
    eval_program,
    eval_while,
    supply,
};
use crate::scope::{Machine, resolve_in};

verus! {

/// Whether `whole` begins with `start`.
pub open spec fn starts_with(whole: Seq<char>, start: Seq<char>) -> bool {
    start.len() <= whole.len() && forall|i: int|
        0 <= i < start.len() ==> #[trigger] whole[i] == start[i]
}

/// `after` has as many frames as `before`, all but the top `depth` of them
/// as they were, a budget no larger, and a console output that begins with
/// that of `before`.
pub open spec fn keeps_below(before: Machine, after: Machine, depth: nat) -> bool {
    &&& after.frames.len() == before.frames.len()
    &&& forall|i: int| 0 <= i < before.frames.len() - depth ==> after.frames[i] == before.frames[i]
    &&& after.budget <= before.budget
    &&& starts_with(after.output, before.output)
}

/// An evaluation leaves the stack as deep as it was and changes no frame but
/// the top one; it never adds to the budget, and takes from it when it
/// succeeds; what it writes to the console comes after what was written.
pub proof fn lemma_eval_frames(t: Term, m: Machine)
    requires
        m.frames.len() >= 1,
    ensures
        keeps_below(m, eval(t, m).1, 1),
        eval(t, m).0 is Ok ==> eval(t, m).1.budget < m.budget,
    decreases m.budget, 0int, 0int,
{
    if m.budget > 0 {
        lemma_inner_frames(t, m.spend().enter());
    }
}

/// What an expression does inside the frame of its evaluation changes no
/// frame but the top two.
pub proof fn lemma_inner_frames(t: Term, m: Machine)
    requires
        m.frames.len() >= 2,
    ensures
        keeps_below(m, eval_inner(t, m).1, 2),
    decreases m.budget, 3int, 0int,
{
    match t {
        Term::Block(items) => lemma_block_frames(items, 0, Term::Null, m),
        Term::List(items) => lemma_list_frames(items, 0, Seq::empty(), m),
        Term::Program(items) => lemma_program_frames(items, 0, m),
        Term::LetBinding(name, value) => lemma_eval_frames(*value, m),
        Term::IfExpression(c, when_true, when_false) => {
            lemma_eval_frames(*c, m);
            let (rc, m1) = eval(*c, m);
            if rc is Ok && expect_boolean(rc->Ok_0) is Ok {
                if expect_boolean(rc->Ok_0)->Ok_0 {
                    lemma_eval_frames(*when_true, m1);
                } else {
                    lemma_eval_frames(*when_false, m1);
                }
            }
        },
        Term::While(c, body) => lemma_while_frames(*c, *body, Term::Null, m),
        Term::FnCall(f, a) => lemma_call_frames(
            *f,
            match a {
                Some(arg) => Some(*arg),
                None => None,
            },
            m,
        ),
        _ => {},
    }
}

/// The rest of a block changes no frame but the top one.
pub proof fn lemma_block_frames(items: Seq<Term>, i: nat, last: Term, m: Machine)
    requires
        m.frames.len() >= 1,
    ensures
        keeps_below(m, eval_block(items, i, last, m).1, 1),
    decreases m.budget, 2int, items.len() - i,
{
    if i < items.len() {
        lemma_eval_frames(items[i as int], m);
        let (r, m1) = eval(items[i as int], m);
        if r is Ok {
            lemma_block_frames(items, i + 1, r->Ok_0, m1);
        }
    }
}

/// The rest of a list changes no frame but the top one.
pub proof fn lemma_list_frames(items: Seq<Term>, i: nat, done: Seq<Term>, m: Machine)
    requires
        m.frames.len() >= 1,
    ensures
        keeps_below(m, eval_list(items, i, done, m).1, 1),
    decreases m.budget, 2int, items.len() - i,
{
    if i < items.len() {
        lemma_eval_frames(items[i as int], m);
        let (r, m1) = eval(items[i as int], m);
        if r is Ok {
            lemma_list_frames(items, i + 1, done.push(r->Ok_0), m1);
        }
    }
}

/// The rest of a program changes no frame but the top one.
pub proof fn lemma_program_frames(items: Seq<Term>, i: nat, m: Machine)
    requires
        m.frames.len() >= 1,
    ensures
        keeps_below(m, eval_program(items, i, m).1, 1),
    decreases m.budget, 2int, items.len() - i,
{
    if i < items.len() {
        lemma_eval_frames(items[i as int], m);
        let (r, m1) = eval(items[i as int], m);
        if r is Ok {
            lemma_program_frames(items, i + 1, m1);
        }
    }
}

/// A loop changes no frame but the top one.
pub proof fn lemma_while_frames(c: Term, body: Term, last: Term, m: Machine)
    requires
        m.frames.len() >= 1,
    ensures
        keeps_below(m, eval_while(c, body, last, m).1, 1),
    decreases m.budget, 2int, 0int,
{
    lemma_eval_frames(c, m);
    let (rc, m1) = eval(c, m);
    if rc is Ok && expect_boolean(rc->Ok_0) == Ok::<bool, Fault>(true) {
        lemma_eval_frames(body, m1);
        let (rb, m2) = eval(body, m1);
        if rb is Ok {
            lemma_while_frames(c, body, rb->Ok_0, m2);
        }
    }
}

/// A call changes no frame but the top two.
pub proof fn lemma_call_frames(f: Term, a: Option<Term>, m: Machine)
    requires
        m.frames.len() >= 2,
    ensures
        keeps_below(m, eval_call(f, a, m).1, 2),
    decreases m.budget, 2int, 0int,
{
    lemma_eval_frames(f, m);
    let (rf, m1) = eval(f, m);
    match rf {
        Ok(Term::Fn(param, body)) => match (param, a) {
            (Some(p), Some(arg)) => {
                lemma_eval_frames(arg, m1);
                let (ra, m2) = eval(arg, m1);
                if ra is Ok {
                    lemma_eval_frames(*body, m2.bind_outer(p, ra->Ok_0));
                }
            },
            (None, None) => {
                lemma_eval_frames(*body, m1);
            },
            _ => {},
        },
        Ok(Term::BuiltInFn(k, op, buffer)) => {
            if k != 0 && a is Some {
                lemma_eval_frames(a->Some_0, m1);
            }
        },
        _ => {},
    }
}

/// Only a binding and a call can change a frame of the context they are
/// evaluated in: any other expression, a loop or a block among them, leaves
/// every frame as it was, whatever was bound while it ran.
pub proof fn lemma_frames_restored(t: Term, m: Machine)
    requires
        m.frames.len() >= 1,
        !(t is LetBinding),
        !(t is FnCall),
    ensures
        eval(t, m).1.frames == m.frames,
{
    if m.budget > 0 {
        let inside = m.spend().enter();
        assert(inside.frames.drop_last() =~= m.frames);
        match t {
            Term::Block(items) => lemma_block_frames(items, 0, Term::Null, inside),
            Term::List(items) => lemma_list_frames(items, 0, Seq::empty(), inside),
            Term::Program(items) => lemma_program_frames(items, 0, inside),
            Term::IfExpression(c, when_true, when_false) => {
                lemma_eval_frames(*c, inside);
                let (rc, m1) = eval(*c, inside);
                if rc is Ok && expect_boolean(rc->Ok_0) is Ok {
                    if expect_boolean(rc->Ok_0)->Ok_0 {
                        lemma_eval_frames(*when_true, m1);
                    } else {
                        lemma_eval_frames(*when_false, m1);
                    }
                }
            },
            Term::While(c, body) => lemma_while_frames(*c, *body, Term::Null, inside),
            _ => {},
        }
        assert(eval(t, m).1.frames =~= m.frames);
    }
}

/// A binding that succeeds with value `v` leaves its name bound to `v` in
/// the top frame of the context it was evaluated in.
pub proof fn lemma_let_binds(name: Seq<char>, value: Term, m: Machine)
    requires
        m.frames.len() >= 1,
    ensures
        ({
            let (r, after) = eval(Term::LetBinding(name, Box::new(value)), m);
            r is Ok ==> after.frames.len() == m.frames.len() && after.frames.last()
                == m.frames.last().insert(name, r->Ok_0) && after.resolve(name) == Some(
                r->Ok_0,
            )
        }),
{
    if m.budget > 0 {
        let inside = m.spend().enter();
        lemma_eval_frames(value, inside);
    }
}

/// In a block, a name that was just bound evaluates to the value it was
/// bound to: `let x = e; x` has the value of `e`, unless the budget ends
/// between the two.
pub proof fn lemma_let_then_use(name: Seq<char>, value: Term, m: Machine)
    requires
        m.frames.len() >= 1,
    ensures
        ({
            let binding = Term::LetBinding(name, Box::new(value));
            let block = seq![binding, Term::Identifier(name)];
            let (r, after) = eval(binding, m);
            let whole = eval_block(block, 0, Term::Null, m).0;
            match r {
                Ok(v) => whole == if after.budget > 0 {
                    Ok::<Term, Fault>(v)
                } else {
                    Err::<Term, Fault>(Fault::BudgetExhausted)
                },
                Err(e) => whole == Err::<Term, Fault>(e),
            }
        }),
{
    let binding = Term::LetBinding(name, Box::new(value));
    let block = seq![binding, Term::Identifier(name)];
    let (r, after) = eval(binding, m);
    lemma_let_binds(name, value, m);
    lemma_eval_frames(binding, m);
    if r is Ok {
        let v = r->Ok_0;
        assert(block[0] == binding);
        assert(block[1] == Term::Identifier(name));
        assert(eval_block(block, 0, Term::Null, m) == eval_block(block, 1, v, after));
        let (r2, after2) = eval(Term::Identifier(name), after);
        assert(eval_block(block, 1, v, after) == match r2 {
            Ok(v2) => if after2.budget <= after.budget {
                eval_block(block, 2, v2, after2)
            } else {
                (Err::<Term, Fault>(Fault::BudgetExhausted), after2)
            },
            Err(e) => (Err::<Term, Fault>(e), after2),
        });
        if after.budget > 0 {
            let inside = after.spend().enter();
            assert(inside.frames.drop_last() =~= after.frames);
            assert(!inside.frames.last().contains_key(name));
            assert(inside.resolve(name) == Some(v));
            assert(r2 == Ok::<Term, Fault>(v));
            assert(eval_block(block, 2, v, after2).0 == Ok::<Term, Fault>(v));
        } else {
            assert(r2 == Err::<Term, Fault>(Fault::BudgetExhausted));
        }
    }
}

/// Where the body of a loop is itself a binding, the value it binds is what
/// its name resolves to when the condition is evaluated for the next round.
pub proof fn lemma_loop_carries_binding(
    c: Term,
    name: Seq<char>,
    value: Term,
    last: Term,
    m: Machine,
)
    requires
        m.frames.len() >= 1,
    ensures
        ({
            let body = Term::LetBinding(name, Box::new(value));
            let (rc, m1) = eval(c, m);
            let (rb, m2) = eval(body, m1);
            rc == Ok::<Term, Fault>(Term::BooleanValue(true)) && rb is Ok ==> m2.resolve(name)
                == Some(rb->Ok_0) && eval_while(c, body, last, m) == eval_while(
                c,
                body,
                rb->Ok_0,
                m2,
            )
        }),
{
    let body = Term::LetBinding(name, Box::new(value));
    lemma_eval_frames(c, m);
    let (rc, m1) = eval(c, m);
    lemma_let_binds(name, value, m1);
    lemma_eval_frames(body, m1);
}

/// The outcome of supplying `args` one after the other to a built-in that
/// awaits `k` arguments and has taken `buffer` so far.
pub open spec fn supply_each(k: u8, op: BuiltIn, buffer: Seq<Term>, args: Seq<Term>, m: Machine) -> (
    Result<Term, Fault>,
    Machine,
)
    decreases args.len(),
{
    if args.len() == 0 {
        (Ok(Term::BuiltInFn(k, op, buffer)), m)
    } else {
        let (r, m1) = supply(k, op, buffer, args[0], m);
        if args.len() == 1 {
            (r, m1)
        } else {
            match r {
                Ok(Term::BuiltInFn(k1, op1, buffer1)) => supply_each(
                    k1,
                    op1,
                    buffer1,
                    args.drop_first(),
                    m1,
                ),
                _ => (r, m1),
            }
        }
    }
}

/// Currying: a built-in that awaits `k` arguments, supplied with `k`
/// arguments one at a time, gives what the operation gives on all of them at
/// once.
pub proof fn lemma_currying(k: u8, op: BuiltIn, buffer: Seq<Term>, args: Seq<Term>, m: Machine)
    requires
        k >= 1,
        args.len() == k,
    ensures
        supply_each(k, op, buffer, args, m) == run_builtin(op, buffer + args, m),
    decreases args.len(),
{
    if k == 1 {
        assert(buffer.push(args[0]) =~= buffer + args);
    } else {
        lemma_currying((k - 1) as u8, op, buffer.push(args[0]), args.drop_first(), m);
        assert(buffer.push(args[0]) + args.drop_first() =~= buffer + args);
    }
}

/// The call of `f` on the arguments `args`, one call for each argument, the
/// first argument innermost: what a parser makes of `f(a, b, c)` and of
/// `f(a)(b)(c)` alike.
pub open spec fn chain(f: Term, args: Seq<Term>) -> Term
    decreases args.len(),
{
    if args.len() == 0 {
        f
    } else {
        Term::FnCall(Box::new(chain(f, args.drop_last())), Some(Box::new(args.last())))
    }
}

/// A built-in in the course of being applied by a chain of calls.
pub struct Applied {
    /// The operation of the built-in that the callee evaluated to.
    pub op: BuiltIn,
    /// The number of arguments that it awaited before the chain supplied any.
    pub awaited: u8,
    /// The arguments that it had taken before the chain supplied any.
    pub buffer: Seq<Term>,
    /// The values of the arguments of the chain, in the order of application.
    pub values: Seq<Term>,
    /// The context after the last of them was evaluated.
    pub after: Machine,
}

/// What the evaluation of `chain(f, args)` in `m` evaluates on its way: the
/// callee `f` first, innermost, which must give a built-in, and then the
/// arguments in the order of application, each in the context that the one
/// before it left, each of which must give a value. `None` where one of
/// these fails or the budget ends.
pub open spec fn applied(f: Term, args: Seq<Term>, m: Machine) -> Option<Applied>
    decreases args.len(),
{
    if args.len() == 0 {
        match eval(f, m) {
            (Ok(Term::BuiltInFn(k, op, buffer)), m1) => Some(
                Applied { op, awaited: k, buffer, values: Seq::empty(), after: m1 },
            ),
            _ => None,
        }
    } else if m.budget == 0 {
        None
    } else {
        match applied(f, args.drop_last(), m.spend().enter()) {
            Some(before) => match eval(args.last(), before.after) {
                (Ok(v), m2) => Some(
                    Applied { values: before.values.push(v), after: m2.exit(), ..before },
                ),
                _ => None,
            },
            None => None,
        }
    }
}

/// Currying, for fewer arguments than are awaited: where a chain of calls
/// supplies a built-in with fewer arguments than it awaits, the chain
/// evaluates to a built-in that has taken the values of these arguments, in
/// the order of application, and awaits the rest. The operation is not run.
pub proof fn lemma_chain_partial(f: Term, args: Seq<Term>, m: Machine)
    requires
        m.frames.len() >= 1,
        applied(f, args, m) is Some,
        applied(f, args, m)->Some_0.awaited > args.len(),
    ensures
        ({
            let x = applied(f, args, m)->Some_0;
            eval(chain(f, args), m) == (
                Ok::<Term, Fault>(
                    Term::BuiltInFn(
                        (x.awaited - args.len()) as u8,
                        x.op,
                        x.buffer + x.values,
                    ),
                ),
                x.after,
            )
        }),
    decreases args.len(),
{
    let x = applied(f, args, m)->Some_0;
    if args.len() == 0 {
        assert(x.buffer + x.values =~= x.buffer);
    } else {
        let inside = m.spend().enter();
        let rest = args.drop_last();
        let before = applied(f, rest, inside)->Some_0;
        lemma_chain_partial(f, rest, inside);
        lemma_eval_frames(chain(f, rest), inside);
        let (rv, m2) = eval(args.last(), before.after);
        let v = rv->Ok_0;
        let awaiting = (before.awaited - rest.len()) as u8;
        let taken = before.buffer + before.values;
        assert(eval(chain(f, rest), inside) == (
            Ok::<Term, Fault>(Term::BuiltInFn(awaiting, before.op, taken)),
            before.after,
        ));
        assert(supply(awaiting, before.op, taken, v, m2) == (
            Ok::<Term, Fault>(Term::BuiltInFn((awaiting - 1) as u8, before.op, taken.push(v))),
            m2,
        ));
        assert(taken.push(v) =~= x.buffer + x.values);
        assert(eval_call(chain(f, rest), Some(args.last()), inside) == supply(
            awaiting,
            before.op,
            taken,
            v,
            m2,
        ));
        assert(eval_inner(chain(f, args), inside) == eval_call(
            chain(f, rest),
            Some(args.last()),
            inside,
        ));
    }
}

/// Currying, for as many arguments as are awaited: where a chain of calls
/// supplies a built-in with all the arguments that it awaits, the chain
/// evaluates to what the operation gives on the values of these arguments,
/// in the order of application, in the context that the evaluation of the
/// last of them left.
pub proof fn lemma_chain_full(f: Term, args: Seq<Term>, m: Machine)
    requires
        m.frames.len() >= 1,
        m.budget > 0,
        args.len() >= 1,
        applied(f, args, m) is Some,
        applied(f, args, m)->Some_0.awaited == args.len(),
    ensures
        ({
            let before = applied(f, args.drop_last(), m.spend().enter())->Some_0;
            let (rv, m2) = eval(args.last(), before.after);
            let x = applied(f, args, m)->Some_0;
            let ran = run_builtin(x.op, x.buffer + x.values, m2);
            &&& rv is Ok
            &&& x.values == before.values.push(rv->Ok_0)
            &&& eval(chain(f, args), m) == (ran.0, ran.1.exit())
        }),
{
    let x = applied(f, args, m)->Some_0;
    let inside = m.spend().enter();
    let rest = args.drop_last();
    let before = applied(f, rest, inside)->Some_0;
    lemma_chain_partial(f, rest, inside);
    lemma_eval_frames(chain(f, rest), inside);
    let (rv, m2) = eval(args.last(), before.after);
    let v = rv->Ok_0;
    let taken = before.buffer + before.values;
    assert(eval(chain(f, rest), inside) == (
        Ok::<Term, Fault>(Term::BuiltInFn(1, before.op, taken)),
        before.after,
    ));
    assert(taken.push(v) =~= x.buffer + x.values);
    assert(supply(1, before.op, taken, v, m2) == run_builtin(x.op, x.buffer + x.values, m2));
    assert(eval_call(chain(f, rest), Some(args.last()), inside) == supply(
        1,
        before.op,
        taken,
        v,
        m2,
    ));
    assert(eval_inner(chain(f, args), inside) == eval_call(
        chain(f, rest),
        Some(args.last()),
        inside,
    ));
}

/// Whether every built-in that stands in `t` has taken values only. What a
/// parser makes is well formed, since it makes no built-in.
pub open spec fn well_formed(t: Term) -> bool
    decreases t, 0int,
{
    match t {
        Term::List(items) => forall|i: int|
            0 <= i < items.len() ==> well_formed(#[trigger] items[i]),
        Term::Block(items) => forall|i: int|
            0 <= i < items.len() ==> well_formed(#[trigger] items[i]),
        Term::Program(items) => forall|i: int|
            0 <= i < items.len() ==> well_formed(#[trigger] items[i]),
        Term::IfExpression(c, when_true, when_false) => well_formed(*c) && well_formed(*when_true)
            && well_formed(*when_false),
        Term::While(c, body) => well_formed(*c) && well_formed(*body),
        Term::Fn(_, body) => well_formed(*body),
        Term::LetBinding(_, value) => well_formed(*value),
        Term::FnCall(f, a) => well_formed(*f) && match a {
            Some(arg) => well_formed(*arg),
            None => true,
        },
        Term::BuiltInFn(_, _, buffer) => forall|i: int|
            0 <= i < buffer.len() ==> is_value(#[trigger] buffer[i]),
        _ => true,
    }
}

/// Whether `t` is a runtime value: a scalar, `Null`, the end-of-program
/// mark, a list of values, a function with a well-formed body, or a built-in
/// that has taken values only.
pub open spec fn is_value(t: Term) -> bool
    decreases t, 1int,
{
    match t {
        Term::IntegerValue(_) | Term::StringValue(_) | Term::BooleanValue(_) | Term::Null
        | Term::EndOfProgram => true,
        Term::Fn(_, body) => well_formed(*body),
        Term::List(items) => forall|i: int| 0 <= i < items.len() ==> is_value(#[trigger] items[i]),
        Term::BuiltInFn(_, _, buffer) => forall|i: int|
            0 <= i < buffer.len() ==> is_value(#[trigger] buffer[i]),
        _ => false,
    }
}

/// Whether every name in every frame is bound to a runtime value.
pub open spec fn holds_values(m: Machine) -> bool {
    forall|i: int, name: Seq<char>|
        0 <= i < m.frames.len() && #[trigger] m.frames[i].contains_key(name) ==> is_value(
            m.frames[i][name],
        )
}

/// A value is well formed.
pub proof fn lemma_value_well_formed(t: Term)
    requires
        is_value(t),
    ensures
        well_formed(t),
    decreases t,
{
    match t {
        Term::List(items) => {
            assert forall|i: int| 0 <= i < items.len() implies well_formed(
                #[trigger] items[i],
            ) by {
                lemma_value_well_formed(items[i]);
            }
        },
        _ => {},
    }
}

/// The context in which a program starts binds values only.
pub proof fn lemma_initial_holds_values()
    ensures
        holds_values(Machine::initial()),
{
    let m = Machine::initial();
    assert forall|i: int, name: Seq<char>|
        0 <= i < m.frames.len() && #[trigger] m.frames[i].contains_key(name) implies is_value(
        m.frames[i][name],
    ) by {
        let v = registry()[name];
        assert(v is BuiltInFn && v->BuiltInFn_2 == Seq::<Term>::empty());
    }
}

proof fn lemma_resolve_value(frames: Seq<Map<Seq<char>, Term>>, name: Seq<char>)
    requires
        forall|i: int, k: Seq<char>|
            0 <= i < frames.len() && #[trigger] frames[i].contains_key(k) ==> is_value(
                frames[i][k],
            ),
    ensures
        resolve_in(frames, name) is Some ==> is_value(resolve_in(frames, name)->Some_0),
    decreases frames.len(),
{
    if frames.len() > 0 {
        if frames.last().contains_key(name) {
            assert(frames[frames.len() - 1].contains_key(name));
        } else {
            let rest = frames.drop_last();
            assert forall|i: int, k: Seq<char>|
                0 <= i < rest.len() && #[trigger] rest[i].contains_key(k) implies is_value(
                rest[i][k],
            ) by {
                assert(frames[i].contains_key(k));
            }
            lemma_resolve_value(rest, name);
        }
    }
}

proof fn lemma_enter_exit_values(m: Machine)
    requires
        holds_values(m),
    ensures
        holds_values(m.enter()),
        holds_values(m.exit()),
        holds_values(m.spend()),
{
    assert forall|i: int, k: Seq<char>|
        0 <= i < m.enter().frames.len() && #[trigger] m.enter().frames[i].contains_key(
            k,
        ) implies is_value(m.enter().frames[i][k]) by {
        if i < m.frames.len() {
            assert(m.frames[i].contains_key(k));
        }
    }
    assert forall|i: int, k: Seq<char>|
        0 <= i < m.exit().frames.len() && #[trigger] m.exit().frames[i].contains_key(
            k,
        ) implies is_value(m.exit().frames[i][k]) by {
        assert(m.frames[i].contains_key(k));
    }
}

proof fn lemma_bind_values(m: Machine, name: Seq<char>, value: Term)
    requires
        holds_values(m),
        is_value(value),
    ensures
        holds_values(m.bind_outer(name, value)),
{
    let after = m.bind_outer(name, value);
    assert forall|i: int, k: Seq<char>|
        0 <= i < after.frames.len() && #[trigger] after.frames[i].contains_key(k) implies is_value(
        after.frames[i][k],
    ) by {
        if m.frames.len() >= 2 && i == m.frames.len() - 2 {
            if k != name {
                assert(m.frames[i].contains_key(k));
            }
        } else {
            assert(m.frames[i].contains_key(k));
        }
    }
}

/// A built-in that runs on values returns a value and leaves the frames as
/// they were.
pub proof fn lemma_run_value(op: BuiltIn, args: Seq<Term>, m: Machine)
    requires
        forall|i: int| 0 <= i < args.len() ==> is_value(#[trigger] args[i]),
    ensures
        run_builtin(op, args, m).1.frames == m.frames,
        run_builtin(op, args, m).0 is Ok ==> is_value(run_builtin(op, args, m).0->Ok_0),
{
    if args.len() == arity(op) {
        match op {
            BuiltIn::ListNth => {
                assert(is_value(args[1]));
            },
            BuiltIn::ListPush => {
                assert(is_value(args[0]));
                assert(is_value(args[1]));
            },
            _ => {},
        }
    }
}

/// Evaluation reduces to values: in a context that binds values only, a
/// well-formed expression that evaluates at all evaluates to a runtime
/// value, never to syntax, and the context still binds values only.
pub proof fn lemma_eval_value(t: Term, m: Machine)
    requires
        well_formed(t),
        holds_values(m),
    ensures
        holds_values(eval(t, m).1),
        eval(t, m).0 is Ok ==> is_value(eval(t, m).0->Ok_0),
    decreases m.budget, 0int, 0int,
{
    if m.budget > 0 {
        lemma_enter_exit_values(m);
        lemma_enter_exit_values(m.spend());
        lemma_inner_value(t, m.spend().enter());
        lemma_enter_exit_values(eval_inner(t, m.spend().enter()).1);
    }
}

proof fn lemma_inner_value(t: Term, m: Machine)
    requires
        well_formed(t),
        holds_values(m),
    ensures
        holds_values(eval_inner(t, m).1),
        eval_inner(t, m).0 is Ok ==> is_value(eval_inner(t, m).0->Ok_0),
    decreases m.budget, 3int, 0int,
{
    match t {
        Term::Identifier(name) => lemma_resolve_value(m.frames, name),
        Term::Block(items) => lemma_block_value(items, 0, Term::Null, m),
        Term::List(items) => lemma_list_value(items, 0, Seq::empty(), m),
        Term::Program(items) => lemma_program_value(items, 0, m),
        Term::LetBinding(name, value) => {
            lemma_eval_value(*value, m);
            let (r, m1) = eval(*value, m);
            if r is Ok {
                lemma_bind_values(m1, name, r->Ok_0);
            }
        },
        Term::IfExpression(c, when_true, when_false) => {
            lemma_eval_value(*c, m);
            let (rc, m1) = eval(*c, m);
            if rc is Ok && expect_boolean(rc->Ok_0) is Ok && m1.budget <= m.budget {
                if expect_boolean(rc->Ok_0)->Ok_0 {
                    lemma_eval_value(*when_true, m1);
                } else {
                    lemma_eval_value(*when_false, m1);
                }
            }
        },
        Term::While(c, body) => lemma_while_value(*c, *body, Term::Null, m),
        Term::FnCall(f, a) => lemma_call_value(
            *f,
            match a {
                Some(arg) => Some(*arg),
                None => None,
            },
            m,
        ),
        Term::BuiltInFn(_, _, _) => {},
        _ => {},
    }
}

proof fn lemma_block_value(items: Seq<Term>, i: nat, last: Term, m: Machine)
    requires
        forall|k: int| 0 <= k < items.len() ==> well_formed(#[trigger] items[k]),
        is_value(last),
        holds_values(m),
    ensures
        holds_values(eval_block(items, i, last, m).1),
        eval_block(items, i, last, m).0 is Ok ==> is_value(eval_block(items, i, last, m).0->Ok_0),
    decreases m.budget, 2int, items.len() - i,
{
    if i < items.len() {
        lemma_eval_value(items[i as int], m);
        let (r, m1) = eval(items[i as int], m);
        if r is Ok && m1.budget <= m.budget {
            lemma_block_value(items, i + 1, r->Ok_0, m1);
        }
    }
}

proof fn lemma_list_value(items: Seq<Term>, i: nat, done: Seq<Term>, m: Machine)
    requires
        forall|k: int| 0 <= k < items.len() ==> well_formed(#[trigger] items[k]),
        forall|k: int| 0 <= k < done.len() ==> is_value(#[trigger] done[k]),
        holds_values(m),
    ensures
        holds_values(eval_list(items, i, done, m).1),
        eval_list(items, i, done, m).0 is Ok ==> is_value(eval_list(items, i, done, m).0->Ok_0),
    decreases m.budget, 2int, items.len() - i,
{
    if i < items.len() {
        lemma_eval_value(items[i as int], m);
        let (r, m1) = eval(items[i as int], m);
        if r is Ok && m1.budget <= m.budget {
            lemma_list_value(items, i + 1, done.push(r->Ok_0), m1);
        }
    }
}

proof fn lemma_program_value(items: Seq<Term>, i: nat, m: Machine)
    requires
        forall|k: int| 0 <= k < items.len() ==> well_formed(#[trigger] items[k]),
        holds_values(m),
    ensures
        holds_values(eval_program(items, i, m).1),
        eval_program(items, i, m).0 is Ok ==> is_value(eval_program(items, i, m).0->Ok_0),
    decreases m.budget, 2int, items.len() - i,
{
    if i < items.len() {
        lemma_eval_value(items[i as int], m);
        let (r, m1) = eval(items[i as int], m);
        if r is Ok && m1.budget <= m.budget {
            lemma_program_value(items, i + 1, m1);
        }
    }
}

proof fn lemma_while_value(c: Term, body: Term, last: Term, m: Machine)
    requires
        well_formed(c),
        well_formed(body),
        is_value(last),
        holds_values(m),
    ensures
        holds_values(eval_while(c, body, last, m).1),
        eval_while(c, body, last, m).0 is Ok ==> is_value(eval_while(c, body, last, m).0->Ok_0),
    decreases m.budget, 2int, 0int,
{
    lemma_eval_value(c, m);
    let (rc, m1) = eval(c, m);
    if rc is Ok && expect_boolean(rc->Ok_0) == Ok::<bool, Fault>(true) && m1.budget < m.budget {
        lemma_eval_value(body, m1);
        let (rb, m2) = eval(body, m1);
        if rb is Ok && m2.budget <= m1.budget {
            lemma_while_value(c, body, rb->Ok_0, m2);
        }
    }
}

proof fn lemma_call_value(f: Term, a: Option<Term>, m: Machine)
    requires
        well_formed(f),
        a is Some ==> well_formed(a->Some_0),
        holds_values(m),
    ensures
        holds_values(eval_call(f, a, m).1),
        eval_call(f, a, m).0 is Ok ==> is_value(eval_call(f, a, m).0->Ok_0),
    decreases m.budget, 2int, 0int,
{
    lemma_eval_value(f, m);
    let (rf, m1) = eval(f, m);
    match rf {
        Ok(Term::Fn(param, body)) => match (param, a) {
            (Some(p), Some(arg)) => {
                if m1.budget <= m.budget {
                    lemma_eval_value(arg, m1);
                    let (ra, m2) = eval(arg, m1);
                    if ra is Ok && m2.budget <= m1.budget {
                        lemma_bind_values(m2, p, ra->Ok_0);
                        lemma_eval_value(*body, m2.bind_outer(p, ra->Ok_0));
                    }
                }
            },
            (None, None) => {
                if m1.budget <= m.budget {
                    lemma_eval_value(*body, m1);
                }
            },
            _ => {},
        },
        Ok(Term::BuiltInFn(k, op, buffer)) => {
            if k == 0 {
                lemma_run_value(op, Seq::empty(), m1);
            } else if a is Some && m1.budget <= m.budget {
                lemma_eval_value(a->Some_0, m1);
                let (ra, m2) = eval(a->Some_0, m1);
                if ra is Ok {
                    let longer = buffer.push(ra->Ok_0);
                    assert forall|i: int| 0 <= i < longer.len() implies is_value(
                        #[trigger] longer[i],
                    ) by {
                        if i < buffer.len() {
                            assert(longer[i] == buffer[i]);
                        }
                    }
                    lemma_run_value(op, longer, m2);
                }
            }
        },
        _ => {},
    }
}

} // verus!
