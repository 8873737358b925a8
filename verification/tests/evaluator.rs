use inflang::ast::{BuiltIn, Expression};
use inflang::error::EvalError;
use inflang::scope::EvaluationContext;

fn ident(name: &str) -> Expression {
    Expression::Identifier(name.to_string())
}

fn num(n: u64) -> Expression {
    Expression::IntegerValue(n)
}

fn text(s: &str) -> Expression {
    Expression::StringValue(s.to_string())
}

fn call(f: Expression, arg: Expression) -> Expression {
    Expression::FnCall(Box::new(f), Box::new(Some(arg)))
}

fn call2(name: &str, a: Expression, b: Expression) -> Expression {
    call(call(ident(name), a), b)
}

fn bind(name: &str, value: Expression) -> Expression {
    Expression::LetBinding(name.to_string(), Box::new(value))
}

fn run_in(ctx: &mut EvaluationContext, e: Expression) -> Result<Expression, EvalError> {
    e.evaluate(ctx)
}

fn run_fresh(e: Expression) -> Result<Expression, EvalError> {
    let mut ctx = EvaluationContext::new();
    e.evaluate(&mut ctx)
}

fn value_of(e: Expression) -> Expression {
    run_fresh(e).expect("evaluation succeeds")
}

fn shown(e: Expression) -> String {
    value_of(e).render()
}

#[test]
fn arithmetic_on_integers() {
    assert!(value_of(call2("+", num(2), num(3))).equals(&num(5)));
    assert!(value_of(call2("-", num(7), num(3))).equals(&num(4)));
    assert!(value_of(call2("*", num(6), num(7))).equals(&num(42)));
    assert!(value_of(call2("/", num(17), num(5))).equals(&num(3)));
    assert!(value_of(call2("mod", num(17), num(5))).equals(&num(2)));
}

#[test]
fn division_and_remainder_by_zero_fail() {
    assert!(matches!(run_fresh(call2("/", num(1), num(0))), Err(EvalError::DivisionByZero)));
    assert!(matches!(run_fresh(call2("mod", num(1), num(0))), Err(EvalError::DivisionByZero)));
}

#[test]
fn arithmetic_that_does_not_fit_fails() {
    assert!(matches!(
        run_fresh(call2("+", num(u64::MAX), num(1))),
        Err(EvalError::ArithmeticOverflow)
    ));
    assert!(matches!(run_fresh(call2("-", num(2), num(3))), Err(EvalError::ArithmeticOverflow)));
    assert!(matches!(
        run_fresh(call2("*", num(u64::MAX), num(2))),
        Err(EvalError::ArithmeticOverflow)
    ));
    assert!(value_of(call2("+", num(u64::MAX - 1), num(1))).equals(&num(u64::MAX)));
}

#[test]
fn arithmetic_wants_integers() {
    match run_fresh(call2("+", text("a"), num(1))) {
        Err(EvalError::TypeMismatch(kind, found)) => {
            assert_eq!(kind, inflang::error::ValueKind::Integer);
            assert_eq!(found, "\"a\"");
        }
        other => panic!("unexpected outcome: {:?}", other),
    }
}

#[test]
fn comparison_of_integers() {
    assert!(value_of(call2("<", num(2), num(3))).equals(&Expression::BooleanValue(true)));
    assert!(value_of(call2("<", num(3), num(3))).equals(&Expression::BooleanValue(false)));
    assert!(value_of(call2(">", num(4), num(3))).equals(&Expression::BooleanValue(true)));
}

#[test]
fn equality_is_reflexive_and_symmetric_on_values() {
    let a = Expression::List(vec![num(1), text("x"), Expression::List(vec![Expression::Null])]);
    let b = Expression::List(vec![num(1), text("x"), Expression::List(vec![Expression::Null])]);
    let c = Expression::List(vec![num(1), text("y")]);
    assert!(a.equals(&a));
    assert!(a.equals(&b) && b.equals(&a));
    assert!(!a.equals(&c) && !c.equals(&a));
    assert!(!num(1).equals(&text("1")));
    assert!(Expression::Null.equals(&Expression::Null));
}

#[test]
fn equality_is_false_on_functions() {
    let f = Expression::Fn(None, Box::new(Expression::Block(vec![num(1)])));
    assert!(!f.equals(&f));
    let b = Expression::BuiltInFn(2, BuiltIn::Add, Vec::new());
    assert!(!b.equals(&b));
    assert!(!b.equals(&num(1)));
    assert!(value_of(call2("eq", ident("+"), ident("+"))).equals(&Expression::BooleanValue(false)));
}

#[test]
fn eq_builtin_compares_lists_element_by_element() {
    let a = Expression::List(vec![num(1), Expression::List(vec![num(2)])]);
    let b = Expression::List(vec![num(1), Expression::List(vec![num(2)])]);
    assert!(value_of(call2("eq", a, b)).equals(&Expression::BooleanValue(true)));
}

#[test]
fn let_then_identifier_in_a_block() {
    let block = Expression::Block(vec![bind("x", num(41)), ident("x")]);
    assert!(value_of(block).equals(&num(41)));
}

#[test]
fn binding_in_a_block_is_gone_after_the_block() {
    let mut ctx = EvaluationContext::new();
    let program = Expression::Program(vec![
        Expression::Block(vec![bind("x", num(1))]),
        ident("x"),
    ]);
    match run_in(&mut ctx, program) {
        Err(EvalError::UnknownIdentifier(name)) => assert_eq!(name, "x"),
        other => panic!("unexpected outcome: {:?}", other),
    }
}

#[test]
fn program_binds_and_adds() {
    // let x = 2; let y = 3; +(x, y);
    let sum = call2("+", ident("x"), ident("y"));
    let program = Expression::Program(vec![bind("x", num(2)), bind("y", num(3)), sum]);
    assert!(matches!(value_of(program), Expression::EndOfProgram));

    let block = Expression::Block(vec![
        bind("x", num(2)),
        bind("y", num(3)),
        call2("+", ident("x"), ident("y")),
    ]);
    assert!(value_of(block).equals(&num(5)));
}

#[test]
fn program_prints_its_discarded_sum() {
    let mut ctx = EvaluationContext::new();
    let sum = call2("+", ident("x"), ident("y"));
    let program = Expression::Program(vec![
        bind("x", num(2)),
        bind("y", num(3)),
        call(ident("print_line"), sum),
    ]);
    assert!(matches!(run_in(&mut ctx, program), Ok(Expression::EndOfProgram)));
    assert_eq!(ctx.take_output(), "5\n");
    assert_eq!(ctx.take_output(), "");
}

#[test]
fn list_nth_out_of_range() {
    let list = Expression::List(vec![num(10), num(20), num(30)]);
    match run_fresh(call2("list_nth", num(3), list)) {
        Err(e) => {
            assert!(matches!(e, EvalError::IndexOutOfRange(3, 3)));
            assert_eq!(
                e.message(),
                "trying to access element #3 of a list only containing 3 elements"
            );
        }
        other => panic!("unexpected outcome: {:?}", other),
    }
    assert!(matches!(
        run_fresh(call2("list_nth", num(0), Expression::List(Vec::new()))),
        Err(EvalError::IndexOutOfRange(0, 0))
    ));
}

#[test]
fn list_nth_in_range() {
    let list = Expression::List(vec![num(10), num(20), num(30)]);
    assert!(value_of(call2("list_nth", num(2), list)).equals(&num(30)));
}

#[test]
fn list_push_returns_a_longer_list() {
    let program = Expression::Block(vec![
        bind("xs", Expression::List(vec![num(1)])),
        bind("ys", call2("list_push", ident("xs"), num(2))),
        Expression::List(vec![ident("xs"), ident("ys")]),
    ]);
    assert_eq!(shown(program), "[[1], [1, 2]]");
}

#[test]
fn list_len_counts() {
    let list = Expression::List(vec![num(10), num(20), num(30)]);
    assert!(value_of(call(ident("list_len"), list)).equals(&num(3)));
    assert!(matches!(
        run_fresh(call(ident("list_len"), num(3))),
        Err(EvalError::TypeMismatch(inflang::error::ValueKind::List, _))
    ));
}

#[test]
fn list_elements_are_evaluated() {
    let list = Expression::List(vec![call2("+", num(1), num(1)), text("a")]);
    assert_eq!(shown(list), "[2, \"a\"]");
}

#[test]
fn calling_a_non_function() {
    let e = Expression::FnCall(Box::new(num(5)), Box::new(None));
    match run_fresh(e) {
        Err(e) => {
            match &e {
                EvalError::NotCallable(callee) => assert_eq!(callee, "5"),
                other => panic!("unexpected failure: {:?}", other),
            }
            assert_eq!(e.message(), "trying to call `5`, which is not a function");
        }
        other => panic!("unexpected outcome: {:?}", other),
    }
}

#[test]
fn unknown_identifier() {
    match run_fresh(ident("nowhere")) {
        Err(e) => {
            assert!(matches!(&e, EvalError::UnknownIdentifier(name) if name == "nowhere"));
            assert_eq!(e.message(), "unknown identifier `nowhere`");
        }
        other => panic!("unexpected outcome: {:?}", other),
    }
}

#[test]
fn partial_application_of_a_built_in() {
    let program = Expression::Block(vec![
        bind("add2", call(ident("+"), num(2))),
        call(ident("add2"), num(3)),
    ]);
    assert!(value_of(program).equals(&num(5)));
    assert!(matches!(
        value_of(call(ident("+"), num(2))),
        Expression::BuiltInFn(1, BuiltIn::Add, _)
    ));
    assert_eq!(shown(call(ident("+"), num(2))), "<built-in function>");
}

#[test]
fn partial_application_keeps_the_order_of_arguments() {
    let program = Expression::Block(vec![
        bind("from7", call(ident("-"), num(7))),
        call(ident("from7"), num(3)),
    ]);
    assert!(value_of(program).equals(&num(4)));
}

#[test]
fn built_in_without_argument_is_an_arity_mismatch() {
    let e = Expression::FnCall(Box::new(ident("+")), Box::new(None));
    match run_fresh(e) {
        Err(e) => {
            assert!(matches!(&e, EvalError::ArityMismatch(name, 2, 0) if name == "+"));
            assert_eq!(e.message(), "function `+` expected 2 arguments, got 0 instead");
        }
        other => panic!("unexpected outcome: {:?}", other),
    }
}

#[test]
fn user_function_takes_its_argument() {
    let body = Expression::Block(vec![call2("+", ident("n"), num(1))]);
    let inc = Expression::Fn(Some("n".to_string()), Box::new(body));
    let program = Expression::Block(vec![bind("inc", inc), call(ident("inc"), num(4))]);
    assert!(value_of(program).equals(&num(5)));
}

#[test]
fn user_function_arity_is_checked() {
    let thunk = Expression::Fn(None, Box::new(Expression::Block(vec![num(1)])));
    assert!(matches!(
        run_fresh(call(thunk.clone(), num(1))),
        Err(EvalError::ArityMismatch(_, 0, 1))
    ));
    let unary = Expression::Fn(
        Some("n".to_string()),
        Box::new(Expression::Block(vec![ident("n")])),
    );
    match run_fresh(Expression::FnCall(Box::new(unary), Box::new(None))) {
        Err(EvalError::ArityMismatch(name, 1, 0)) => assert_eq!(name, "<anonymous>"),
        other => panic!("unexpected outcome: {:?}", other),
    }
    let called = Expression::FnCall(Box::new(thunk), Box::new(None));
    assert!(value_of(called).equals(&num(1)));
}

#[test]
fn if_takes_one_branch() {
    let e = Expression::IfExpression(
        Box::new(call2("<", num(1), num(2))),
        Box::new(Expression::Block(vec![text("yes")])),
        Box::new(Expression::Block(vec![ident("nowhere")])),
    );
    assert!(value_of(e).equals(&text("yes")));
}

#[test]
fn if_wants_a_boolean() {
    let e = Expression::IfExpression(
        Box::new(num(1)),
        Box::new(Expression::Block(vec![num(1)])),
        Box::new(Expression::Block(vec![num(2)])),
    );
    match run_fresh(e) {
        Err(e) => {
            assert!(matches!(
                &e,
                EvalError::TypeMismatch(inflang::error::ValueKind::Boolean, found) if found == "1"
            ));
            assert_eq!(e.message(), "expected boolean, got `1`");
        }
        other => panic!("unexpected outcome: {:?}", other),
    }
}

#[test]
fn while_with_false_condition_is_null() {
    let e = Expression::While(
        Box::new(Expression::BooleanValue(false)),
        Box::new(Expression::Block(vec![num(1)])),
    );
    assert!(value_of(e).is_null());
}

#[test]
fn while_whose_body_is_a_binding_counts_to_five() {
    // The loop's own frame carries `i` from one round to the next; the frame
    // of the enclosing block keeps the first binding.
    let looping = Expression::While(
        Box::new(call2("<", ident("i"), num(5))),
        Box::new(bind("i", call2("+", ident("i"), num(1)))),
    );
    let program = Expression::Block(vec![
        bind("i", num(0)),
        bind("last", looping),
        Expression::List(vec![ident("last"), ident("i")]),
    ]);
    assert_eq!(shown(program), "[5, 0]");
}

#[test]
fn while_whose_body_is_a_block_never_sees_its_bindings() {
    // while <(i, 5) { let i = inc(i); } with i = 0: the binding is made in
    // the frame of the body's block and is gone when the condition runs.
    let inc = Expression::Fn(
        Some("n".to_string()),
        Box::new(Expression::Block(vec![call2("+", ident("n"), num(1))])),
    );
    let looping = Expression::While(
        Box::new(call2("<", ident("i"), num(5))),
        Box::new(Expression::Block(vec![bind("i", call(ident("inc"), ident("i")))])),
    );
    let program = Expression::Block(vec![bind("inc", inc), bind("i", num(0)), looping]);
    let mut ctx = EvaluationContext::new();
    ctx.set_budget(10_000);
    assert!(matches!(run_in(&mut ctx, program), Err(EvalError::BudgetExhausted)));
    assert_eq!(ctx.budget(), 0);
}

#[test]
fn budget_is_spent_one_step_per_evaluation() {
    let mut ctx = EvaluationContext::new();
    ctx.set_budget(3);
    assert!(run_in(&mut ctx, Expression::List(vec![num(1), num(2)])).is_ok());
    assert_eq!(ctx.budget(), 0);
    assert!(matches!(run_in(&mut ctx, num(1)), Err(EvalError::BudgetExhausted)));
}

#[test]
fn frames_are_popped_after_a_failure() {
    let mut ctx = EvaluationContext::new();
    let failing = Expression::Block(vec![bind("x", num(1)), ident("nowhere")]);
    assert!(run_in(&mut ctx, failing).is_err());
    // Had the frames stayed, this binding would land in a frame above the root
    // and `y` would still resolve; what matters is that `x` does not.
    assert!(matches!(run_in(&mut ctx, ident("x")), Err(EvalError::UnknownIdentifier(_))));
    assert!(run_in(&mut ctx, bind("y", num(2))).is_ok());
    assert!(run_in(&mut ctx, ident("y")).expect("bound in the root frame").equals(&num(2)));
}

#[test]
fn not_negates() {
    assert!(value_of(call(ident("not"), Expression::BooleanValue(true)))
        .equals(&Expression::BooleanValue(false)));
    assert!(matches!(
        run_fresh(call(ident("not"), num(0))),
        Err(EvalError::TypeMismatch(inflang::error::ValueKind::Boolean, _))
    ));
}

#[test]
fn sqrt_truncates() {
    assert!(value_of(call(ident("sqrt"), num(0))).equals(&num(0)));
    assert!(value_of(call(ident("sqrt"), num(15))).equals(&num(3)));
    assert!(value_of(call(ident("sqrt"), num(16))).equals(&num(4)));
    assert!(value_of(call(ident("sqrt"), num(u64::MAX))).equals(&num(4294967295)));
}

#[test]
fn join_str_concatenates() {
    assert!(value_of(call2("join_str", text("ab"), text("cd"))).equals(&text("abcd")));
    assert!(matches!(
        run_fresh(call2("join_str", text("ab"), num(1))),
        Err(EvalError::TypeMismatch(inflang::error::ValueKind::Text, _))
    ));
}

#[test]
fn str_to_int_reads_decimal() {
    assert!(value_of(call(ident("str_to_int"), text("0042"))).equals(&num(42)));
    assert!(value_of(call(ident("str_to_int"), text("+7"))).equals(&num(7)));
    assert!(value_of(call(ident("str_to_int"), text("18446744073709551615")))
        .equals(&num(u64::MAX)));
    for bad in ["", "+", "12a", "-1", " 1", "18446744073709551616"] {
        match run_fresh(call(ident("str_to_int"), text(bad))) {
            Err(EvalError::MalformedInteger(s)) => assert_eq!(s, bad),
            other => panic!("unexpected outcome for {:?}: {:?}", bad, other),
        }
    }
}

#[test]
fn print_writes_raw_text_and_display_forms() {
    let mut ctx = EvaluationContext::new();
    assert!(run_in(&mut ctx, call(ident("print"), text("a b"))).expect("prints").is_null());
    assert!(run_in(&mut ctx, call(ident("print"), num(12))).is_ok());
    let list = Expression::List(vec![text("x"), Expression::BooleanValue(true)]);
    assert!(run_in(&mut ctx, call(ident("print_line"), list)).is_ok());
    assert_eq!(ctx.take_output(), "a b12[\"x\", true]\n");
}

#[test]
fn get_input_line_strips_the_line_end() {
    let mut ctx = EvaluationContext::new();
    ctx.push_input_line("first\n".to_string());
    ctx.push_input_line("second\r\n".to_string());
    ctx.push_input_line("third".to_string());
    ctx.push_input_line("\r".to_string());
    let read = Expression::FnCall(Box::new(ident("get_input_line")), Box::new(None));
    for expected in ["first", "second", "third", "\r", "", ""] {
        let got = run_in(&mut ctx, read.clone()).expect("reads");
        assert!(got.equals(&text(expected)), "{:?}", got);
    }
}

#[test]
fn get_input_line_ignores_an_argument() {
    let mut ctx = EvaluationContext::new();
    ctx.push_input_line("line\n".to_string());
    let read = call(ident("get_input_line"), ident("nowhere"));
    assert!(run_in(&mut ctx, read).expect("reads").equals(&text("line")));
}

#[test]
fn display_forms() {
    assert_eq!(num(0).render(), "0");
    assert_eq!(num(u64::MAX).render(), "18446744073709551615");
    assert_eq!(text("hi").render(), "\"hi\"");
    assert_eq!(Expression::BooleanValue(true).render(), "true");
    assert_eq!(Expression::BooleanValue(false).render(), "false");
    assert_eq!(Expression::Null.render(), "<null>");
    assert_eq!(Expression::EndOfProgram.render(), "<end of program>");
    assert_eq!(Expression::List(Vec::new()).render(), "[]");
    assert_eq!(Expression::List(vec![num(1), num(2), num(3)]).render(), "[1, 2, 3]");
    assert_eq!(Expression::Program(vec![num(1), num(2)]).render(), "1;\n2;");
    assert_eq!(Expression::Block(vec![num(1), num(2)]).render(), "{ 1;\n2; }");
    assert_eq!(bind("x", num(1)).render(), "let x = 1");
    assert_eq!(call(ident("f"), num(1)).render(), "(f(1))");
    assert_eq!(
        Expression::FnCall(Box::new(ident("f")), Box::new(None)).render(),
        "(f())"
    );
    let f = Expression::Fn(Some("n".to_string()), Box::new(Expression::Block(vec![ident("n")])));
    assert_eq!(f.render(), "<function>");
    let thunk = Expression::Fn(None, Box::new(Expression::Block(vec![num(1), num(2)])));
    assert_eq!(thunk.render(), f.render());
    assert_eq!(Expression::List(vec![f, thunk]).render(), "[<function>, <function>]");
    assert_eq!(
        Expression::BuiltInFn(1, BuiltIn::Add, vec![num(2)]).render(),
        "<built-in function>"
    );
    let w = Expression::While(
        Box::new(Expression::BooleanValue(true)),
        Box::new(Expression::Block(vec![num(1)])),
    );
    assert_eq!(w.render(), "while true { 1; }");
    let i = Expression::IfExpression(
        Box::new(ident("c")),
        Box::new(Expression::Block(vec![num(1)])),
        Box::new(Expression::Block(vec![num(2)])),
    );
    assert_eq!(i.render(), "if c { 1; } else { 2; }");
}

#[test]
fn accessors_return_payloads_or_mismatches() {
    assert_eq!(num(3).integer_value().expect("an integer"), 3);
    assert_eq!(text("s").string_value().expect("a text"), "s");
    assert!(Expression::BooleanValue(true).boolean_value().expect("a boolean"));
    assert_eq!(ident("x").identifier_name().expect("an identifier"), "x");
    assert_eq!(Expression::List(vec![num(1)]).list_value().expect("a list").len(), 1);
    assert!(Expression::Null.is_null());
    assert!(!num(0).is_null());
    let e = text("s").integer_value().expect_err("not an integer");
    assert_eq!(e.message(), "expected integer, got `\"s\"`");
    let e = num(1).string_value().expect_err("not a text");
    assert_eq!(e.message(), "expected string, got `1`");
    let e = num(1).identifier_name().expect_err("not an identifier");
    assert_eq!(e.message(), "expected identifier, got `1`");
    let e = num(1).list_value().expect_err("not a list");
    assert_eq!(e.message(), "expected list, got `1`");
}

#[test]
fn scope_stack_resolves_from_the_top() {
    let mut ctx = EvaluationContext::new();
    ctx.enter_scope();
    ctx.enter_scope();
    ctx.add_local_var("x".to_string(), num(1));
    assert!(ctx.resolve_var("x".to_string()).expect("bound").equals(&num(1)));
    ctx.enter_scope();
    ctx.add_local_var("x".to_string(), num(2));
    assert!(ctx.resolve_var("x".to_string()).expect("bound").equals(&num(2)));
    ctx.exit_scope();
    ctx.exit_scope();
    assert!(ctx.resolve_var("x".to_string()).expect("bound").equals(&num(1)));
    ctx.exit_scope();
    assert!(ctx.resolve_var("x".to_string()).is_none());
    ctx.exit_scope();
    ctx.exit_scope();
    assert!(ctx.resolve_var("+".to_string()).is_some());
}

#[test]
fn scope_frame_last_write_wins() {
    let mut frame = inflang::scope::EvaluationScope::new_empty();
    assert!(frame.get(&"a".to_string()).is_none());
    frame.insert("a".to_string(), num(1));
    frame.insert("b".to_string(), num(2));
    frame.insert("a".to_string(), num(3));
    assert!(frame.get(&"a".to_string()).expect("bound").equals(&num(3)));
    assert!(frame.get(&"b".to_string()).expect("bound").equals(&num(2)));
    let root = inflang::scope::EvaluationScope::new_default();
    assert!(matches!(
        root.get(&"list_nth".to_string()),
        Some(Expression::BuiltInFn(2, BuiltIn::ListNth, _))
    ));
    assert!(matches!(
        root.get(&"get_input_line".to_string()),
        Some(Expression::BuiltInFn(0, BuiltIn::GetInputLine, _))
    ));
}

#[test]
fn built_in_on_a_buffer_of_the_wrong_length() {
    let mut ctx = EvaluationContext::new();
    let r = inflang::builtin_functions::run(BuiltIn::Add, &vec![num(1)], &mut ctx);
    assert!(matches!(r, Err(EvalError::ArityMismatch(name, 2, 1)) if name == "+"));
}

#[test]
fn get_input_line_waits_while_the_console_is_open() {
    let mut ctx = EvaluationContext::new();
    ctx.set_input_open(true);
    assert!(ctx.input_open());
    let read = Expression::FnCall(Box::new(ident("get_input_line")), Box::new(None));
    let e = run_in(&mut ctx, read.clone()).expect_err("no line is queued");
    assert!(matches!(e, EvalError::InputPending));
    assert_eq!(e.message(), "no console input is ready");
    ctx.push_input_line("now\n".to_string());
    assert!(run_in(&mut ctx, read.clone()).expect("reads").equals(&text("now")));
    ctx.set_input_open(false);
    assert!(run_in(&mut ctx, read).expect("reads").equals(&text("")));
}

#[test]
fn a_copy_of_a_context_evaluates_alike() {
    let mut ctx = EvaluationContext::new();
    ctx.push_input_line("7\n".to_string());
    assert!(run_in(&mut ctx, bind("x", num(1))).is_ok());
    let mut copy = ctx.clone();
    let read = Expression::FnCall(Box::new(ident("get_input_line")), Box::new(None));
    let e = Expression::List(vec![ident("x"), read, call(ident("print"), ident("x"))]);
    let a = run_in(&mut ctx, e.clone()).expect("evaluates");
    let b = run_in(&mut copy, e).expect("evaluates");
    assert_eq!(a.render(), "[1, \"7\", <null>]");
    assert!(a == b);
    assert_eq!(ctx.take_output(), copy.take_output());
    assert_eq!(ctx.budget(), copy.budget());
}

#[test]
fn equality_operator_is_value_equality() {
    assert!(num(1) == num(1));
    assert!(num(1) != num(2));
    assert!(Expression::Null == Expression::Null);
    assert!(Expression::EndOfProgram != Expression::EndOfProgram);
    assert!(ident("+") == ident("+"));
    let f = value_of(ident("+"));
    assert!(f != f.clone());
}

#[test]
fn deep_copy_of_an_expression() {
    let e = Expression::IfExpression(
        Box::new(call2("<", num(1), ident("x"))),
        Box::new(Expression::Block(vec![bind("y", text("s"))])),
        Box::new(Expression::Block(vec![Expression::Fn(
            Some("n".to_string()),
            Box::new(Expression::Block(vec![Expression::Null])),
        )])),
    );
    assert_eq!(e.clone().render(), e.render());
    assert_eq!(e.render(), "if ((<(1))(x)) { let y = \"s\"; } else { <function>; }");
    match e.clone() {
        Expression::IfExpression(_, _, otherwise) => match *otherwise {
            Expression::Block(items) => match &items[0] {
                Expression::Fn(Some(name), body) => {
                    assert_eq!(name, "n");
                    assert_eq!(body.render(), "{ <null>; }");
                }
                other => panic!("unexpected item: {:?}", other),
            },
            other => panic!("unexpected branch: {:?}", other),
        },
        other => panic!("unexpected copy: {:?}", other),
    }
}

#[test]
fn text_helpers() {
    assert_eq!(inflang::text::u64_to_text(0), "0");
    assert_eq!(inflang::text::u64_to_text(10), "10");
    assert_eq!(inflang::text::u64_to_text(9_007_199_254_740_993), "9007199254740993");
    assert_eq!(inflang::text::parse_u64("9007199254740993"), Some(9_007_199_254_740_993));
    assert_eq!(inflang::text::parse_u64("٣"), None);
    assert_eq!(inflang::text::chars_of("aé"), vec!['a', 'é']);
    assert_eq!(inflang::text::string_of(&vec!['a', 'é']), "aé");
    assert_eq!(inflang::text::floor_sqrt(24), 4);
    assert_eq!(inflang::text::floor_sqrt(25), 5);
    assert_eq!(inflang::text::floor_sqrt(9_007_199_254_740_993), 94_906_265);
    assert_eq!(inflang::builtin_functions::strip_line(&"a\r\n".to_string()), "a");
    assert_eq!(inflang::builtin_functions::strip_line(&"a\n\n".to_string()), "a\n");
    assert_eq!(inflang::builtin_functions::strip_line(&"a\r".to_string()), "a\r");
}

#[test]
fn a_built_in_of_every_name_is_registered() {
    let names = [
        "print", "print_line", "+", "/", "-", "*", "<", ">", "eq", "not", "mod", "sqrt",
        "get_input_line", "join_str", "str_to_int", "list_len", "list_nth", "list_push",
    ];
    let ctx = EvaluationContext::new();
    for name in names {
        match ctx.resolve_var(name.to_string()) {
            Some(Expression::BuiltInFn(k, op, applied)) => {
                assert_eq!(op.name(), name);
                assert_eq!(op.arity(), k);
                assert!(applied.is_empty());
            }
            other => panic!("unexpected binding of {}: {:?}", name, other),
        }
    }
    assert_eq!(ctx.budget(), u64::MAX);
}

#[test]
fn printing_a_function_writes_the_placeholder() {
    let mut ctx = EvaluationContext::new();
    let f = Expression::Fn(Some("n".to_string()), Box::new(Expression::Block(vec![ident("n")])));
    assert!(run_in(&mut ctx, call(ident("print_line"), f)).is_ok());
    assert!(run_in(&mut ctx, call(ident("print_line"), ident("+"))).is_ok());
    assert_eq!(ctx.take_output(), "<function>\n<built-in function>\n");
    match run_fresh(call2("+", Expression::Fn(None, Box::new(Expression::Null)), num(1))) {
        Err(e) => assert_eq!(e.message(), "expected integer, got `<function>`"),
        other => panic!("unexpected outcome: {:?}", other),
    }
}
