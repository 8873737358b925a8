//! Evaluation with more console input: what an evaluation does once more
//! lines are queued than it had when it stopped for want of one.

use vstd::prelude::*;
use crate::ast::{BuiltIn, Term, expect_boolean};
use crate::builtin_functions::run_builtin;
use crate::error::Fault;
use crate::eval::{
    eval,
    eval_block,
    eval_call,
    eval_inner,
    eval_list,
    eval_program,
    eval_while,
    supply,
};
use crate::laws::{
    lemma_block_frames,
    lemma_eval_frames,
    lemma_list_frames,
    lemma_program_frames,
    lemma_while_frames,
    starts_with,
};
use crate::scope::Machine;

verus! {

/// `longer` is `shorter` with more console lines queued behind those of
/// `shorter`, or with the same lines and the console at its end; `shorter`
/// itself still awaits lines.
pub open spec fn more_input(shorter: Machine, longer: Machine) -> bool {
    &&& shorter.input_open
    &&& longer.frames == shorter.frames
    &&& longer.budget == shorter.budget
    &&& longer.output == shorter.output
    &&& shorter.input.len() <= longer.input.len()
    &&& forall|i: int|
        0 <= i < shorter.input.len() ==> #[trigger] longer.input[i] == shorter.input[i]
}

/// How an evaluation with more console input relates to the one with less:
/// either both have the same outcome and leave contexts that still differ
/// in the queued lines only, or the one with less stopped for want of a line
/// and the other wrote at least what it wrote, in the same order.
pub open spec fn replays(
    shorter: (Result<Term, Fault>, Machine),
    longer: (Result<Term, Fault>, Machine),
) -> bool {
    ||| shorter.0 == longer.0 && more_input(shorter.1, longer.1)
    ||| shorter.0 == Err::<Term, Fault>(Fault::InputPending) && starts_with(
        longer.1.output,
        shorter.1.output,
    )
}

/// A built-in run with more console input.
pub proof fn lemma_run_replays(op: BuiltIn, args: Seq<Term>, m: Machine, m2: Machine)
    requires
        more_input(m, m2),
    ensures
        replays(run_builtin(op, args, m), run_builtin(op, args, m2)),
        starts_with(run_builtin(op, args, m2).1.output, m2.output),
{
    if op == BuiltIn::GetInputLine && m.input.len() > 0 {
        assert(m2.input[0] == m.input[0]);
        let a = m.skip_line();
        let a2 = m2.skip_line();
        assert forall|i: int| 0 <= i < a.input.len() implies #[trigger] a2.input[i]
            == a.input[i] by {
            assert(m2.input[i + 1] == m.input[i + 1]);
        }
    }
}

/// One argument supplied to a built-in, with more console input.
proof fn lemma_supply_replays(
    k: u8,
    op: BuiltIn,
    buffer: Seq<Term>,
    value: Term,
    m: Machine,
    m2: Machine,
)
    requires
        more_input(m, m2),
    ensures
        replays(supply(k, op, buffer, value, m), supply(k, op, buffer, value, m2)),
        starts_with(supply(k, op, buffer, value, m2).1.output, m2.output),
{
    lemma_run_replays(op, buffer.push(value), m, m2);
}

/// Evaluation with more console input: an evaluation that had all the lines
/// it asked for has the same outcome and writes the same when more lines are
/// queued; one that stopped for want of a line has written the beginning of
/// what the evaluation with more lines writes.
pub proof fn lemma_replays(t: Term, m: Machine, m2: Machine)
    requires
        more_input(m, m2),
        m.frames.len() >= 1,
    ensures
        replays(eval(t, m), eval(t, m2)),
    decreases m.budget, 0int, 0int,
{
    if m.budget > 0 {
        lemma_inner_replays(t, m.spend().enter(), m2.spend().enter());
    }
}

proof fn lemma_inner_replays(t: Term, m: Machine, m2: Machine)
    requires
        more_input(m, m2),
        m.frames.len() >= 2,
    ensures
        replays(eval_inner(t, m), eval_inner(t, m2)),
    decreases m.budget, 3int, 0int,
{
    match t {
        Term::Block(items) => lemma_block_replays(items, 0, Term::Null, m, m2),
        Term::List(items) => lemma_list_replays(items, 0, Seq::empty(), m, m2),
        Term::Program(items) => lemma_program_replays(items, 0, m, m2),
        Term::LetBinding(name, value) => lemma_replays(*value, m, m2),
        Term::IfExpression(c, when_true, when_false) => {
            lemma_replays(*c, m, m2);
            lemma_eval_frames(*c, m);
            lemma_eval_frames(*c, m2);
            let (rc, a) = eval(*c, m);
            let (rc2, a2) = eval(*c, m2);
            if rc == rc2 && more_input(a, a2) {
                if rc is Ok && expect_boolean(rc->Ok_0) is Ok && a.budget <= m.budget {
                    if expect_boolean(rc->Ok_0)->Ok_0 {
                        lemma_replays(*when_true, a, a2);
                    } else {
                        lemma_replays(*when_false, a, a2);
                    }
                }
            } else if rc2 is Ok && expect_boolean(rc2->Ok_0) is Ok {
                if expect_boolean(rc2->Ok_0)->Ok_0 {
                    lemma_eval_frames(*when_true, a2);
                } else {
                    lemma_eval_frames(*when_false, a2);
                }
            }
        },
        Term::While(c, body) => lemma_while_replays(*c, *body, Term::Null, m, m2),
        Term::FnCall(f, a) => lemma_call_replays(
            *f,
            match a {
                Some(arg) => Some(*arg),
                None => None,
            },
            m,
            m2,
        ),
        _ => {},
    }
}

proof fn lemma_block_replays(items: Seq<Term>, i: nat, last: Term, m: Machine, m2: Machine)
    requires
        more_input(m, m2),
        m.frames.len() >= 1,
    ensures
        replays(eval_block(items, i, last, m), eval_block(items, i, last, m2)),
    decreases m.budget, 2int, items.len() - i,
{
    if i < items.len() {
        lemma_replays(items[i as int], m, m2);
        lemma_eval_frames(items[i as int], m);
        lemma_eval_frames(items[i as int], m2);
        let (r, a) = eval(items[i as int], m);
        let (r2, a2) = eval(items[i as int], m2);
        if r == r2 && more_input(a, a2) {
            if r is Ok && a.budget <= m.budget {
                lemma_block_replays(items, i + 1, r->Ok_0, a, a2);
            }
        } else if r2 is Ok {
            lemma_block_frames(items, i + 1, r2->Ok_0, a2);
        }
    }
}

proof fn lemma_list_replays(items: Seq<Term>, i: nat, done: Seq<Term>, m: Machine, m2: Machine)
    requires
        more_input(m, m2),
        m.frames.len() >= 1,
    ensures
        replays(eval_list(items, i, done, m), eval_list(items, i, done, m2)),
    decreases m.budget, 2int, items.len() - i,
{
    if i < items.len() {
        lemma_replays(items[i as int], m, m2);
        lemma_eval_frames(items[i as int], m);
        lemma_eval_frames(items[i as int], m2);
        let (r, a) = eval(items[i as int], m);
        let (r2, a2) = eval(items[i as int], m2);
        if r == r2 && more_input(a, a2) {
            if r is Ok && a.budget <= m.budget {
                lemma_list_replays(items, i + 1, done.push(r->Ok_0), a, a2);
            }
        } else if r2 is Ok {
            lemma_list_frames(items, i + 1, done.push(r2->Ok_0), a2);
        }
    }
}

proof fn lemma_program_replays(items: Seq<Term>, i: nat, m: Machine, m2: Machine)
    requires
        more_input(m, m2),
        m.frames.len() >= 1,
    ensures
        replays(eval_program(items, i, m), eval_program(items, i, m2)),
    decreases m.budget, 2int, items.len() - i,
{
    if i < items.len() {
        lemma_replays(items[i as int], m, m2);
        lemma_eval_frames(items[i as int], m);
        lemma_eval_frames(items[i as int], m2);
        let (r, a) = eval(items[i as int], m);
        let (r2, a2) = eval(items[i as int], m2);
        if r == r2 && more_input(a, a2) {
            if r is Ok && a.budget <= m.budget {
                lemma_program_replays(items, i + 1, a, a2);
            }
        } else if r2 is Ok {
            lemma_program_frames(items, i + 1, a2);
        }
    }
}

proof fn lemma_while_replays(c: Term, body: Term, last: Term, m: Machine, m2: Machine)
    requires
        more_input(m, m2),
        m.frames.len() >= 1,
    ensures
        replays(eval_while(c, body, last, m), eval_while(c, body, last, m2)),
    decreases m.budget, 2int, 0int,
{
    lemma_replays(c, m, m2);
    lemma_eval_frames(c, m);
    lemma_eval_frames(c, m2);
    let (rc, a) = eval(c, m);
    let (rc2, a2) = eval(c, m2);
    if rc == rc2 && more_input(a, a2) {
        if rc is Ok && expect_boolean(rc->Ok_0) == Ok::<bool, Fault>(true) && a.budget < m.budget {
            lemma_replays(body, a, a2);
            lemma_eval_frames(body, a);
            lemma_eval_frames(body, a2);
            let (rb, b) = eval(body, a);
            let (rb2, b2) = eval(body, a2);
            if rb == rb2 && more_input(b, b2) {
                if rb is Ok && b.budget <= a.budget {
                    lemma_while_replays(c, body, rb->Ok_0, b, b2);
                }
            } else if rb2 is Ok {
                lemma_while_frames(c, body, rb2->Ok_0, b2);
            }
        }
    } else if rc2 is Ok && expect_boolean(rc2->Ok_0) == Ok::<bool, Fault>(true) {
        lemma_eval_frames(body, a2);
        let (rb2, b2) = eval(body, a2);
        if rb2 is Ok {
            lemma_while_frames(c, body, rb2->Ok_0, b2);
        }
    }
}

/// What a call writes comes after what the evaluation of its callee wrote.
proof fn lemma_call_grows(f: Term, a: Option<Term>, m: Machine)
    requires
        m.frames.len() >= 2,
    ensures
        starts_with(eval_call(f, a, m).1.output, eval(f, m).1.output),
{
    lemma_eval_frames(f, m);
    let (rf, m1) = eval(f, m);
    match rf {
        Ok(Term::Fn(param, body)) => match (param, a) {
            (Some(p), Some(arg)) => {
                lemma_eval_frames(arg, m1);
                let (ra, m2) = eval(arg, m1);
                if ra is Ok {
                    lemma_eval_frames(*body, m2.bind_outer(p, ra->Ok_0));
                }
            },
            (None, None) => {
                lemma_eval_frames(*body, m1);
            },
            _ => {},
        },
        Ok(Term::BuiltInFn(k, op, buffer)) => {
            if k != 0 && a is Some {
                lemma_eval_frames(a->Some_0, m1);
            }
        },
        _ => {},
    }
}

proof fn lemma_call_replays(f: Term, arg: Option<Term>, m: Machine, m2: Machine)
    requires
        more_input(m, m2),
        m.frames.len() >= 2,
    ensures
        replays(eval_call(f, arg, m), eval_call(f, arg, m2)),
    decreases m.budget, 2int, 0int,
{
    lemma_replays(f, m, m2);
    lemma_eval_frames(f, m);
    lemma_eval_frames(f, m2);
    let (rf, a) = eval(f, m);
    let (rf2, a2) = eval(f, m2);
    if rf == rf2 && more_input(a, a2) {
        match rf {
            Ok(Term::Fn(param, body)) => match (param, arg) {
                (Some(p), Some(x)) => {
                    if a.budget <= m.budget {
                        lemma_replays(x, a, a2);
                        lemma_eval_frames(x, a);
                        lemma_eval_frames(x, a2);
                        let (ra, b) = eval(x, a);
                        let (ra2, b2) = eval(x, a2);
                        if ra == ra2 && more_input(b, b2) {
                            if ra is Ok && b.budget <= a.budget {
                                lemma_replays(
                                    *body,
                                    b.bind_outer(p, ra->Ok_0),
                                    b2.bind_outer(p, ra->Ok_0),
                                );
                            }
                        } else if ra2 is Ok {
                            lemma_eval_frames(*body, b2.bind_outer(p, ra2->Ok_0));
                        }
                    }
                },
                (None, None) => {
                    if a.budget <= m.budget {
                        lemma_replays(*body, a, a2);
                    }
                },
                _ => {},
            },
            Ok(Term::BuiltInFn(k, op, buffer)) => {
                if k == 0 {
                    lemma_run_replays(op, Seq::empty(), a, a2);
                } else if arg is Some && a.budget <= m.budget {
                    let x = arg->Some_0;
                    lemma_replays(x, a, a2);
                    lemma_eval_frames(x, a);
                    lemma_eval_frames(x, a2);
                    let (ra, b) = eval(x, a);
                    let (ra2, b2) = eval(x, a2);
                    if ra == ra2 && more_input(b, b2) {
                        if ra is Ok {
                            lemma_supply_replays(k, op, buffer, ra->Ok_0, b, b2);
                        }
                    }
                }
            },
            _ => {},
        }
    } else {
        lemma_call_grows(f, arg, m2);
    }
}

/// Running an evaluation again with more console input repeats it: what the
/// evaluation with fewer lines wrote is the beginning of what the other one
/// writes, and where the first did not stop for want of a line, the second
/// has the same outcome and writes the same.
pub proof fn lemma_rerun_repeats(t: Term, m: Machine, m2: Machine)
    requires
        more_input(m, m2),
        m.frames.len() >= 1,
    ensures
        starts_with(eval(t, m2).1.output, eval(t, m).1.output),
        eval(t, m).0 != Err::<Term, Fault>(Fault::InputPending) ==> eval(t, m2).0 == eval(t, m).0
            && eval(t, m2).1.output == eval(t, m).1.output,
{
    lemma_replays(t, m, m2);
}

} // verus!
