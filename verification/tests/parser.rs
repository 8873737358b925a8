use inflang::ast::Expression;
use inflang::error::EvalError;
use inflang::lexer::{SyntaxError, TokenType};
use inflang::parser::Parser;
use inflang::scope::EvaluationContext;

fn expression(source: &str) -> Expression {
    Parser::new(source.to_string()).parse_expression().expect("an expression")
}

fn program(source: &str) -> Expression {
    Parser::new(source.to_string()).parse_program().expect("a program")
}

fn syntax_error(source: &str) -> SyntaxError {
    Parser::new(source.to_string()).parse_program().expect_err("a syntax error")
}

fn evaluated(source: &str) -> Result<Expression, EvalError> {
    let mut ctx = EvaluationContext::new();
    expression(source).evaluate(&mut ctx)
}

fn shown(source: &str) -> String {
    evaluated(source).expect("evaluation succeeds").render()
}

#[test]
fn literals() {
    assert!(matches!(expression("12"), Expression::IntegerValue(12)));
    assert!(matches!(expression("true"), Expression::BooleanValue(true)));
    assert!(matches!(expression("false"), Expression::BooleanValue(false)));
    assert!(matches!(expression("\"a b\""), Expression::StringValue(s) if s == "a b"));
    assert!(matches!(expression("name"), Expression::Identifier(s) if s == "name"));
    assert!(matches!(expression(""), Expression::EndOfProgram));
    assert!(matches!(expression("18446744073709551615"), Expression::IntegerValue(u64::MAX)));
}

#[test]
fn integer_literal_out_of_range() {
    let e = syntax_error("18446744073709551616;");
    assert!(matches!(&e, SyntaxError::IntegerOutOfRange(s) if s == "18446744073709551616"));
    assert_eq!(
        e.message(),
        "`18446744073709551616`: number too large to fit in target type"
    );
}

#[test]
fn display_form_of_parsed_syntax() {
    assert_eq!(expression("let x = +(1, 2)").render(), "let x = ((+(1))(2))");
    assert_eq!(expression("f()").render(), "(f())");
    assert_eq!(expression("f(1)(2)").render(), "((f(1))(2))");
    assert_eq!(expression("[1, [2, 3], \"s\"]").render(), "[1, [2, 3], \"s\"]");
    assert_eq!(expression("[]").render(), "[]");
    assert_eq!(expression("[1,]").render(), "[1]");
    assert_eq!(
        expression("if c { 1; } else { 2; 3; }").render(),
        "if c { 1; } else { 2;\n3; }"
    );
    assert_eq!(expression("while c { f(); }").render(), "while c { (f()); }");
    assert_eq!(expression("fn () { 1; }").render(), "<function>");
    assert_eq!(expression("fn (a, b) { a; }").render(), "<function>");
    assert_eq!(program("1; x;\n% note\n \"s\";").render(), "1;\nx;\n\"s\";");
    assert_eq!(program("").render(), "");
}

#[test]
fn multi_argument_call_is_a_chain_of_calls() {
    let a = expression("+(2, 3)");
    let b = expression("+(2)(3)");
    assert_eq!(a.render(), b.render());
    match a {
        Expression::FnCall(outer, second) => {
            assert!(matches!(*second, Some(Expression::IntegerValue(3))));
            match *outer {
                Expression::FnCall(callee, first) => {
                    assert!(matches!(*callee, Expression::Identifier(name) if name == "+"));
                    assert!(matches!(*first, Some(Expression::IntegerValue(2))));
                }
                other => panic!("unexpected callee: {:?}", other),
            }
        }
        other => panic!("unexpected tree: {:?}", other),
    }
}

#[test]
fn curried_and_direct_application_agree() {
    assert_eq!(shown("+(2)(3)"), "5");
    assert_eq!(shown("+(2, 3)"), "5");
    assert_eq!(shown("-(7)(3)"), shown("-(7, 3)"));
    assert_eq!(shown("list_nth(1)([4, 5, 6])"), shown("list_nth(1, [4, 5, 6])"));
}

#[test]
fn program_of_two_bindings_and_a_sum() {
    let tree = program("let x = 2; let y = 3; +(x, y);");
    let mut ctx = EvaluationContext::new();
    assert!(matches!(tree.evaluate(&mut ctx), Ok(Expression::EndOfProgram)));
    // One expression at a time against one context, as an interactive session
    // runs them: the last value is the sum.
    let mut session = EvaluationContext::new();
    assert!(expression("let x = 2").evaluate(&mut session).is_ok());
    assert!(expression("let y = 3").evaluate(&mut session).is_ok());
    let sum = expression("+(x, y)").evaluate(&mut session).expect("a sum");
    assert!(matches!(sum, Expression::IntegerValue(5)));
}

#[test]
fn list_nth_out_of_range_from_source() {
    match evaluated("list_nth(3, [10,20,30])") {
        Err(EvalError::IndexOutOfRange(3, 3)) => {}
        other => panic!("unexpected outcome: {:?}", other),
    }
}

#[test]
fn user_functions_of_several_parameters() {
    assert_eq!(shown("fn (a, b) { -(a, b); }(7, 3)"), "4");
    assert_eq!(shown("fn (a, b) { -(a, b); }(7)(3)"), "4");
    assert_eq!(shown("fn () { 9; }()"), "9");
}

#[test]
fn recursion_through_a_binding() {
    let mut session = EvaluationContext::new();
    let declared = expression(
        "let down = fn (n) { if eq(n, 0) { \"done\"; } else { down(-(n, 1)); }; }",
    );
    assert!(declared.evaluate(&mut session).is_ok());
    let result = expression("down(20)").evaluate(&mut session).expect("a value");
    assert_eq!(result.render(), "\"done\"");
}

#[test]
fn a_block_alone_is_no_expression() {
    let e = syntax_error("{ 1; };");
    assert!(matches!(&e, SyntaxError::NoExpression(t) if t.token_type == TokenType::LCurlyBrace));
}

#[test]
fn loop_written_in_source_keeps_the_outer_binding() {
    let mut ctx = EvaluationContext::new();
    ctx.set_budget(5_000);
    let tree = program("let i = 0; while <(i, 5) { let i = +(i, 1); };");
    assert!(matches!(tree.evaluate(&mut ctx), Err(EvalError::BudgetExhausted)));
}

#[test]
fn printing_from_source() {
    let mut ctx = EvaluationContext::new();
    let tree = program("print(\"a\"); print_line([1, \"b\"]); print_line(\"c\");");
    assert!(tree.evaluate(&mut ctx).is_ok());
    assert_eq!(ctx.take_output(), "a[1, \"b\"]\nc\n");
}

#[test]
fn display_form_parses_back_to_an_equal_value() {
    for source in ["0", "42", "true", "false", "\"text\"", "[]", "[1, [true, \"x\"], []]"] {
        let first = expression(source);
        let again = expression(&first.render());
        assert!(first.equals(&again), "{}", source);
        assert_eq!(first.render(), again.render());
    }
    let tree = program("1; [2, \"x\"]; true;");
    let again = program(&tree.render());
    assert_eq!(tree.render(), again.render());
    match (tree, again) {
        (Expression::Program(a), Expression::Program(b)) => {
            assert_eq!(a.len(), b.len());
            for (x, y) in a.iter().zip(b.iter()) {
                assert!(x.equals(y));
            }
        }
        other => panic!("unexpected trees: {:?}", other),
    }
}

#[test]
fn missing_semicolon() {
    let e = syntax_error("1 2;");
    assert!(matches!(
        &e,
        SyntaxError::UnexpectedToken(TokenType::Semicolon, found)
            if found.token_type == TokenType::Integer && found.value == "2"
    ));
    assert_eq!(e.message(), "expected token of type ;, got `2` instead");
    let e = syntax_error("1");
    assert_eq!(e.message(), "expected token of type ;, got `end of file` instead");
}

#[test]
fn empty_block() {
    let e = syntax_error("while true { };");
    assert!(matches!(e, SyntaxError::EmptyBlock));
    assert_eq!(e.message(), "expected at least one expression in block, got none");
}

#[test]
fn unseparated_items() {
    assert!(matches!(syntax_error("[1 2];"), SyntaxError::UnseparatedItem));
    assert!(matches!(syntax_error("f(1 2);"), SyntaxError::UnseparatedArgument));
    assert!(matches!(syntax_error("fn (a b) { a; };"), SyntaxError::UnseparatedParameter));
    assert!(matches!(syntax_error("[1"), SyntaxError::UnseparatedItem));
}

#[test]
fn no_expression_starts_with_this() {
    let e = syntax_error(");");
    assert!(matches!(&e, SyntaxError::NoExpression(t) if t.token_type == TokenType::RParen));
    assert_eq!(e.message(), "unexpected `)`; no valid expression starts with this");
}

#[test]
fn let_wants_a_name_and_an_equals_sign() {
    assert!(matches!(
        syntax_error("let 1 = 2;"),
        SyntaxError::UnexpectedToken(TokenType::Identifier, _)
    ));
    assert!(matches!(
        syntax_error("let x 2;"),
        SyntaxError::UnexpectedToken(TokenType::AssignmentOperator, _)
    ));
}

#[test]
fn tokenizer_failures_reach_the_parser() {
    assert!(matches!(syntax_error("let x = \"abc"), SyntaxError::UnterminatedString(_)));
    assert!(matches!(syntax_error("a#;"), SyntaxError::UnexpectedCharacter(_, '#', _)));
}

#[test]
fn evaluation_run_again_with_more_input_repeats_what_it_wrote() {
    let tree = program(
        "print(\"name? \"); let name = get_input_line(); print_line(join_str(\"hello \", name)); \
         print(\"age? \"); let age = str_to_int(get_input_line()); print_line(+(age, 1));",
    );
    let start = EvaluationContext::new();
    let mut lines: Vec<&str> = Vec::new();
    let mut outputs: Vec<String> = Vec::new();
    for next in ["ann\n", "41\r\n"] {
        let mut attempt = start.clone();
        attempt.set_input_open(true);
        for line in &lines {
            attempt.push_input_line(line.to_string());
        }
        assert!(matches!(tree.evaluate(&mut attempt), Err(EvalError::InputPending)));
        outputs.push(attempt.take_output());
        lines.push(next);
    }
    let mut last = start.clone();
    last.set_input_open(true);
    for line in &lines {
        last.push_input_line(line.to_string());
    }
    assert!(matches!(tree.evaluate(&mut last), Ok(Expression::EndOfProgram)));
    let whole = last.take_output();
    assert_eq!(outputs[0], "name? ");
    assert_eq!(outputs[1], "name? hello ann\nage? ");
    assert_eq!(whole, "name? hello ann\nage? 42\n");
    assert!(whole.starts_with(&outputs[1]) && outputs[1].starts_with(&outputs[0]));
}

#[test]
fn function_of_several_parameters_is_a_nest_of_functions() {
    match expression("fn () { 1; }") {
        Expression::Fn(None, body) => assert_eq!(body.render(), "{ 1; }"),
        other => panic!("unexpected tree: {:?}", other),
    }
    match expression("fn (a) { a; }") {
        Expression::Fn(Some(a), body) => {
            assert_eq!(a, "a");
            assert_eq!(body.render(), "{ a; }");
        }
        other => panic!("unexpected tree: {:?}", other),
    }
    match expression("fn (a, b, c) { a; }") {
        Expression::Fn(Some(a), second) => match *second {
            Expression::Fn(Some(b), third) => match *third {
                Expression::Fn(Some(c), body) => {
                    assert_eq!((a.as_str(), b.as_str(), c.as_str()), ("a", "b", "c"));
                    assert_eq!(body.render(), "{ a; }");
                }
                other => panic!("unexpected innermost function: {:?}", other),
            },
            other => panic!("unexpected inner function: {:?}", other),
        },
        other => panic!("unexpected tree: {:?}", other),
    }
}

#[test]
fn display_form_of_syntax_parses_back_to_the_same_tree() {
    let sources = [
        "x",
        "+",
        "let x = 1",
        "let total = [1, y, \"s\"]",
        "let x = let y = true",
        "if c { 1; } else { 2; 3; }",
        "if true { let x = 1; x; } else { if x { [x]; } else { \"no\"; }; }",
        "while c { let x = 1; y; }",
        "[let x = 1, if c { 1; } else { 2; }, while c { x; }]",
    ];
    for source in sources {
        let first = expression(source);
        let shown = first.render();
        let again = expression(&shown);
        assert_eq!(format!("{:?}", first), format!("{:?}", again), "{}", source);
        assert_eq!(shown, again.render());
    }
    let tree = program("let x = 1; if x { x; } else { [x]; }; while x { let x = false; }; x;");
    let again = program(&tree.render());
    assert_eq!(format!("{:?}", tree), format!("{:?}", again));
    assert_eq!(
        tree.render(),
        "let x = 1;\nif x { x; } else { [x]; };\nwhile x { let x = false; };\nx;"
    );
}

#[test]
fn display_forms_that_do_not_parse_back() {
    // A call is shown in parentheses, and no expression starts with one.
    let call = expression("f(1)");
    assert_eq!(call.render(), "(f(1))");
    assert!(Parser::new(call.render()).parse_expression().is_err());
    // Placeholders are read as names or not at all.
    assert!(matches!(expression("<null>"), Expression::Identifier(name) if name == "<null>"));
    assert!(matches!(expression("<function>"), Expression::Identifier(name) if name == "<function>"));
    assert!(Parser::new("<built-in function>".to_string()).parse_program().is_err());
    // A text that holds a double quote ends at it.
    let text = Expression::StringValue("a\"b".to_string());
    assert!(Parser::new(text.render()).parse_program().is_err());
}
