use lox::data_types::{Arithmetic, Printed};
use lox::error::{EvaluationError, RuntimeError};
use lox::interpreter::{Action, Interpreter};
use lox::parser::Parser;
use lox::scanner::Scanner;
use lox::token::{Token, TokenType, TokenTypeDiscriminants};

fn answer(action: &Action) -> Option<u64> {
    match action {
        Action::Convert(digits) => Some(digits.parse::<f64>().unwrap().to_bits()),
        Action::Compute(operation, left, right) => {
            let left = f64::from_bits(*left);
            let right = f64::from_bits(*right);
            let result = match operation {
                Arithmetic::Add => left + right,
                Arithmetic::Subtract => left - right,
                Arithmetic::Multiply => left * right,
                Arithmetic::Divide => left / right,
            };
            Some(result.to_bits())
        }
        Action::Clock => Some(1700000000000f64.to_bits()),
        _ => None,
    }
}

fn drive(interpreter: &mut Interpreter, source: &str, budget: usize) -> (Vec<String>, Option<RuntimeError>) {
    let mut scanner = Scanner::new(source.to_string());
    let tokens = scanner.scan_tokens().unwrap();
    let statements = Parser::new(tokens).parse().unwrap();
    interpreter.interpret(statements);
    let mut lines = Vec::new();
    let mut reply = None;
    loop {
        let action = interpreter.resume(reply, budget);
        reply = answer(&action);
        match action {
            Action::Print(Printed::Text(text)) => lines.push(text),
            Action::Print(Printed::Number(bits)) => lines.push(format!("{}", f64::from_bits(bits))),
            Action::Finished => return (lines, None),
            Action::Failed(error) => return (lines, Some(error)),
            _ => {}
        }
    }
}

fn run(source: &str) -> (Vec<String>, Option<RuntimeError>) {
    drive(&mut Interpreter::new(), source, 1000)
}

fn output(source: &str) -> Vec<String> {
    let (lines, error) = run(source);
    assert_eq!(None, error);
    lines
}

fn failure(source: &str) -> RuntimeError {
    run(source).1.unwrap()
}

#[test]
fn prints_a_sum() {
    assert_eq!(vec!["42"], output("print 21 + 21;"));
}

#[test]
fn joins_strings() {
    assert_eq!(vec!["foobar"], output("var a = \"foo\"; var b = \"bar\"; print a + b;"));
}

#[test]
fn inner_scope_shadows_and_ends() {
    assert_eq!(vec!["2", "1"], output("var x = 1; { var x = 2; print x; } print x;"));
}

#[test]
fn counter_closure_counts() {
    let source = "fun make() { var i = 0; fun inc() { i = i + 1; return i; } return inc; } var c = make(); print c(); print c(); print c();";
    assert_eq!(vec!["1", "2", "3"], output(source));
}

#[test]
fn for_loop_counts_up() {
    assert_eq!(vec!["0", "1", "2"], output("for (var i = 0; i < 3; i = i + 1) print i;"));
}

#[test]
fn string_plus_number_fails() {
    assert_eq!(
        (vec![], Some(RuntimeError::Evaluation(EvaluationError::StringConcatination))),
        run("print \"a\" + 1;")
    );
}

#[test]
fn logical_operators_give_the_deciding_operand() {
    assert_eq!(vec!["fallback"], output("print nil or \"fallback\";"));
    assert_eq!(vec!["2"], output("print \"x\" and 2;"));
    assert_eq!(vec!["nil"], output("print nil and 2;"));
    assert_eq!(vec!["1"], output("print 1 or 2;"));
    assert_eq!(vec!["false"], output("print false or false;"));
}

#[test]
fn print_shows_each_kind_of_value() {
    assert_eq!(
        vec!["nil", "true", "false", "text", "", "1", "1.5", "-0.25", "100000000000000000000", "<fn placehodler>", "<fn placehodler>"],
        output("fun f() {} print nil; print true; print false; print \"text\"; print \"\"; print 1.0; print 1.50; print -0.25; print 100000000000000000000; print f; print clock;")
    );
}

#[test]
fn block_variable_is_gone_after_the_block() {
    assert_eq!(
        (vec!["1".to_string()], Some(RuntimeError::UndefinedVariable("a".to_string()))),
        run("{ var a = 1; print a; } print a;")
    );
}

#[test]
fn returned_function_sees_the_locals_of_its_maker() {
    let source = "fun outer() { var secret = \"seen\"; fun inner() { return secret; } return inner; } var f = outer(); print f();";
    assert_eq!(vec!["seen"], output(source));
}

#[test]
fn or_does_not_evaluate_its_right_side_after_a_true_left() {
    let source = "var hits = 0; fun hit() { hits = hits + 1; return true; } print true or hit(); print hits; print false or hit(); print hits; print false and hit(); print hits; print true and hit(); print hits;";
    assert_eq!(vec!["true", "0", "true", "1", "false", "1", "true", "2"], output(source));
}

#[test]
fn wrong_number_of_arguments_fails() {
    assert_eq!(RuntimeError::Arity { expected: 2, found: 1 }, failure("fun f(a, b) {} f(1);"));
    assert_eq!(RuntimeError::Arity { expected: 0, found: 2 }, failure("fun f() {} f(1, 2);"));
    assert_eq!(RuntimeError::Arity { expected: 0, found: 1 }, failure("clock(1);"));
}

#[test]
fn only_functions_can_be_called() {
    assert_eq!(RuntimeError::NotCallable, failure("\"text\"();"));
    assert_eq!(RuntimeError::NotCallable, failure("var a = 1; a(2);"));
    assert_eq!(RuntimeError::NotCallable, failure("nil();"));
}

#[test]
fn undefined_variables_fail() {
    assert_eq!(RuntimeError::UndefinedVariable("a".to_string()), failure("print a;"));
    assert_eq!(RuntimeError::UndefinedVariable("b".to_string()), failure("b = 1;"));
}

#[test]
fn arithmetic_needs_numbers() {
    assert_eq!(
        RuntimeError::Evaluation(EvaluationError::Arithmatic(TokenTypeDiscriminants::Minus)),
        failure("print 1 - \"a\";")
    );
    assert_eq!(
        RuntimeError::Evaluation(EvaluationError::Arithmatic(TokenTypeDiscriminants::Star)),
        failure("print nil * 2;")
    );
    assert_eq!(
        RuntimeError::Evaluation(EvaluationError::Arithmatic(TokenTypeDiscriminants::Slash)),
        failure("print true / 2;")
    );
    assert_eq!(
        RuntimeError::Evaluation(EvaluationError::Arithmatic(TokenTypeDiscriminants::Plus)),
        failure("print true + nil;")
    );
    assert_eq!(
        RuntimeError::Evaluation(EvaluationError::StringConcatination),
        failure("print 1 + \"a\";")
    );
}

#[test]
fn negation_needs_a_number() {
    assert_eq!(RuntimeError::Evaluation(EvaluationError::Negation), failure("print -\"a\";"));
    assert_eq!(vec!["-3", "3", "-0"], output("print -3; print --3; print -0;"));
}

#[test]
fn orderings_need_two_numbers_or_two_strings() {
    assert_eq!(
        RuntimeError::Evaluation(EvaluationError::Comparision(TokenTypeDiscriminants::Less)),
        failure("print 1 < \"a\";")
    );
    assert_eq!(
        RuntimeError::Evaluation(EvaluationError::Comparision(TokenTypeDiscriminants::GreaterEqual)),
        failure("print nil >= nil;")
    );
    assert_eq!(
        vec!["true", "false", "true", "true", "false", "true"],
        output("print 1 < 2; print 2 < 2; print 2 <= 2; print 3 > 2; print 2 > 3; print 2 >= 2;")
    );
    assert_eq!(
        vec!["true", "false", "true", "true", "true"],
        output("print \"a\" < \"b\"; print \"b\" < \"a\"; print \"a\" < \"ab\"; print \"\" <= \"\"; print \"b\" > \"abc\";")
    );
}

#[test]
fn equality_never_fails_and_knows_no_mixed_kinds() {
    assert_eq!(
        vec!["false", "true", "true", "false", "true", "true", "false", "false"],
        output("print \"a\" == 1; print nil == nil; print 1 == 1.0; print true == 1; print \"a\" != \"b\"; print \"ab\" == \"a\" + \"b\"; print nil == false; print clock == clock;")
    );
}

#[test]
fn not_goes_by_truthiness() {
    assert_eq!(
        vec!["true", "true", "false", "false", "false", "false"],
        output("print !nil; print !false; print !true; print !0; print !\"\"; print !clock;")
    );
}

#[test]
fn zero_and_the_empty_string_count_as_true() {
    assert_eq!(vec!["yes", "yes", "no", "no"], output("if (0) print \"yes\"; else print \"no\"; if (\"\") print \"yes\"; else print \"no\"; if (nil) print \"yes\"; else print \"no\"; if (false) print \"yes\"; else print \"no\";"));
}

#[test]
fn division_by_zero_does_not_fail() {
    assert_eq!(vec!["inf", "-inf", "NaN"], output("print 1 / 0; print -1 / 0; print 0 / 0;"));
    assert_eq!(vec!["false", "true", "false"], output("var n = 0 / 0; print n == n; print n != n; print n < 1;"));
}

#[test]
fn operands_are_evaluated_from_left_to_right() {
    let source = "fun say(x) { print x; return x; } print say(1) + say(2) * say(3); fun three(a, b, c) {} three(say(\"a\"), say(\"b\"), say(\"c\"));";
    assert_eq!(vec!["1", "2", "3", "7", "a", "b", "c"], output(source));
}

#[test]
fn the_callee_is_evaluated_before_the_arguments() {
    let source = "fun pick() { print \"callee\"; fun f(x) {} return f; } fun arg() { print \"argument\"; return 1; } pick()(arg());";
    assert_eq!(vec!["callee", "argument"], output(source));
}

#[test]
fn assignment_gives_the_assigned_value() {
    assert_eq!(vec!["2", "2", "2"], output("var a = 1; var b; print a = b = 2; print a; print b;"));
}

#[test]
fn assignment_reaches_the_nearest_scope_that_has_the_name() {
    assert_eq!(vec!["3", "1", "2"], output("var a = 1; { var a = 2; { a = 3; print a; } } print a; { a = 2; } print a;"));
}

#[test]
fn a_function_without_return_gives_nil() {
    assert_eq!(vec!["nil", "nil", "nil"], output("fun f() {} print f(); fun g() { return; } print g(); fun h() { if (false) return 1; } print h();"));
}

#[test]
fn return_leaves_loops_and_blocks() {
    let source = "fun find() { var i = 0; while (true) { { if (i == 3) return i; } i = i + 1; } } print find(); var x = \"outer\"; print x;";
    assert_eq!(vec!["3", "outer"], output(source));
}

#[test]
fn return_outside_a_function_ends_its_statement_only() {
    assert_eq!(vec!["before", "after"], output("print \"before\"; { return 1; print \"skipped\"; } return; print \"after\";"));
}

#[test]
fn recursion_through_the_own_name() {
    let source = "fun fib(n) { if (n < 2) return n; return fib(n - 1) + fib(n - 2); } print fib(15);";
    assert_eq!(vec!["610"], output(source));
}

#[test]
fn functions_see_later_definitions_in_their_scopes() {
    assert_eq!(vec!["late"], output("fun f() { return g(); } fun g() { return \"late\"; } print f();"));
}

#[test]
fn closure_sees_later_assignments_to_what_it_captured() {
    assert_eq!(vec!["2"], output("var a = 1; fun show() { print a; } a = 2; show();"));
}

#[test]
fn parameters_shadow_outer_names() {
    assert_eq!(vec!["inner", "outer"], output("var a = \"outer\"; fun f(a) { print a; } f(\"inner\"); print a;"));
}

#[test]
fn while_loop_runs_while_the_condition_holds() {
    assert_eq!(vec!["3", "2", "1"], output("var i = 3; while (i > 0) { print i; i = i - 1; }"));
    assert_eq!(Vec::<String>::new(), output("while (false) print 1;"));
}

#[test]
fn if_without_else_does_nothing_when_false() {
    assert_eq!(vec!["end"], output("if (nil) print 1; print \"end\";"));
}

#[test]
fn var_without_initializer_is_nil() {
    assert_eq!(vec!["nil"], output("var a; print a;"));
}

#[test]
fn redefinition_in_the_same_scope_overwrites() {
    assert_eq!(vec!["2"], output("var a = 1; var a = 2; print a;"));
}

#[test]
fn grouping_changes_the_order() {
    assert_eq!(vec!["9", "7"], output("print (1 + 2) * 3; print 1 + 2 * 3;"));
}

#[test]
fn clock_gives_a_number() {
    assert_eq!(vec!["true", "1700000000000"], output("print clock() > 0; print clock();"));
}

#[test]
fn after_a_failure_the_machine_is_in_its_global_scope_again() {
    let mut interpreter = Interpreter::new();
    let first = drive(&mut interpreter, "var a = 1; { var b = 2; fun f() { var c = 3; print a + nil; } f(); }", 1000);
    assert_eq!(
        (vec![], Some(RuntimeError::Evaluation(EvaluationError::Arithmatic(TokenTypeDiscriminants::Plus)))),
        first
    );
    assert_eq!((vec!["1".to_string()], None), drive(&mut interpreter, "print a;", 1000));
    assert_eq!(
        (vec![], Some(RuntimeError::UndefinedVariable("b".to_string()))),
        drive(&mut interpreter, "print b;", 1000)
    );
    assert_eq!((vec!["5".to_string()], None), drive(&mut interpreter, "var b = 4; print a + b;", 1000));
}

#[test]
fn a_failure_gives_up_the_rest_of_the_program() {
    assert_eq!(
        (vec!["1".to_string()], Some(RuntimeError::UndefinedVariable("x".to_string()))),
        run("print 1; print x; print 2;")
    );
}

#[test]
fn definitions_last_from_one_program_to_the_next() {
    let mut interpreter = Interpreter::new();
    assert_eq!((vec![], None), drive(&mut interpreter, "var n = 20; fun twice(x) { return x * 2; }", 1000));
    assert_eq!((vec!["40".to_string()], None), drive(&mut interpreter, "print twice(n);", 1000));
}

#[test]
fn the_budget_bounds_the_steps_of_one_run() {
    let mut scanner = Scanner::new("var i = 0; while (true) i = i + 1;".to_string());
    let statements = Parser::new(scanner.scan_tokens().unwrap()).parse().unwrap();
    let mut interpreter = Interpreter::new();
    interpreter.interpret(statements);
    assert_eq!(Action::Paused, interpreter.resume(None, 0));
    assert_eq!(Action::Paused, interpreter.resume(None, 1));
    assert_eq!(Action::Convert("0".to_string()), interpreter.resume(None, 1));
    let mut paused = 0;
    let mut reply = Some(0f64.to_bits());
    for _ in 0..200 {
        let action = interpreter.resume(reply, 3);
        reply = answer(&action);
        if action == Action::Paused {
            paused += 1;
        }
        assert!(action != Action::Finished);
    }
    assert!(paused > 50);
}

#[test]
fn the_same_program_gives_the_same_lines_under_any_budget() {
    let source = "fun fib(n) { if (n < 2) return n; return fib(n - 1) + fib(n - 2); } for (var i = 0; i < 8; i = i + 1) print fib(i);";
    let expected = vec!["0", "1", "1", "2", "3", "5", "8", "13"];
    for budget in [1, 2, 7, 1000000] {
        assert_eq!((expected.iter().map(|s| s.to_string()).collect(), None), drive(&mut Interpreter::new(), source, budget));
    }
}

#[test]
fn an_empty_program_is_finished_at_once() {
    let mut interpreter = Interpreter::new();
    assert_eq!(Action::Finished, interpreter.resume(None, 0));
    interpreter.interpret(vec![]);
    assert_eq!(Action::Finished, interpreter.resume(None, 10));
    assert_eq!(Some(Action::Finished), interpreter.step());
}

#[test]
fn the_machine_asks_the_host_for_every_number() {
    let mut scanner = Scanner::new("print 1.5 + 2;".to_string());
    let statements = Parser::new(scanner.scan_tokens().unwrap()).parse().unwrap();
    let mut interpreter = Interpreter::new();
    interpreter.interpret(statements);
    assert_eq!(Action::Convert("1.5".to_string()), interpreter.resume(None, 100));
    assert_eq!(Action::Convert("2".to_string()), interpreter.resume(Some(1.5f64.to_bits()), 100));
    assert_eq!(
        Action::Compute(Arithmetic::Add, 1.5f64.to_bits(), 2f64.to_bits()),
        interpreter.resume(Some(2f64.to_bits()), 100)
    );
    assert_eq!(
        Action::Print(Printed::Number(3.5f64.to_bits())),
        interpreter.resume(Some(3.5f64.to_bits()), 100)
    );
    assert_eq!(Action::Finished, interpreter.resume(None, 100));
}

#[test]
fn an_answer_that_never_came_is_a_missing_operand() {
    let mut scanner = Scanner::new("print 1;".to_string());
    let statements = Parser::new(scanner.scan_tokens().unwrap()).parse().unwrap();
    let mut interpreter = Interpreter::new();
    interpreter.interpret(statements);
    assert_eq!(Action::Convert("1".to_string()), interpreter.resume(None, 100));
    assert_eq!(Action::Failed(RuntimeError::MissingOperand), interpreter.resume(None, 100));
    assert_eq!(Action::Finished, interpreter.resume(None, 100));
}

#[test]
fn a_name_without_text_is_an_unexpected_token() {
    let nameless = Token::new(TokenType::Identifier("a".to_string()), None, 1);
    let mut interpreter = Interpreter::new();
    interpreter.interpret(vec![lox::ast::Stmt::Var { name: nameless.duplicate(), initializer: None }]);
    assert_eq!(
        Action::Failed(RuntimeError::UnexpectedToken(nameless.duplicate())),
        interpreter.resume(None, 100)
    );
    interpreter.interpret(vec![lox::ast::Stmt::Print(Box::new(lox::ast::Expr::Variable(
        nameless.duplicate(),
    )))]);
    assert_eq!(
        Action::Failed(RuntimeError::UnexpectedToken(nameless)),
        interpreter.resume(None, 100)
    );
}

#[test]
fn a_token_that_is_no_operator_is_refused() {
    let comma = Token::new(TokenType::Comma, None, 1);
    let nil = || Box::new(lox::ast::Expr::Literal(lox::ast::Literal::Nil));
    let mut interpreter = Interpreter::new();
    interpreter.interpret(vec![lox::ast::Stmt::Expression(Box::new(lox::ast::Expr::Binary {
        left: nil(),
        operator: comma.duplicate(),
        right: nil(),
    }))]);
    assert_eq!(
        Action::Failed(RuntimeError::Evaluation(EvaluationError::Operator(TokenTypeDiscriminants::Comma))),
        interpreter.resume(None, 100)
    );
    interpreter.interpret(vec![lox::ast::Stmt::Expression(Box::new(lox::ast::Expr::Unary {
        operator: comma,
        right: nil(),
    }))]);
    assert_eq!(
        Action::Failed(RuntimeError::Evaluation(EvaluationError::Operator(TokenTypeDiscriminants::Comma))),
        interpreter.resume(None, 100)
    );
}

#[test]
fn execute_block_runs_statements_in_the_scopes_in_sight() {
    let mut scanner = Scanner::new("var a = \"kept\"; print a;".to_string());
    let statements = Parser::new(scanner.scan_tokens().unwrap()).parse().unwrap();
    let mut interpreter = Interpreter::new();
    interpreter.execute_block(&statements);
    assert_eq!(Action::Print(Printed::Text("kept".to_string())), interpreter.resume(None, 100));
    assert_eq!(Action::Finished, interpreter.resume(None, 100));
    assert_eq!(
        lox::data_types::Object::String("kept".to_string()),
        interpreter.environment().get("a").unwrap()
    );
}

#[test]
fn scopes_of_blocks_and_calls_are_let_go_when_they_end() {
    let mut interpreter = Interpreter::new();
    let source = "fun f(n) { var a = n; { var b = a; } if (n > 0) return f(n - 1); return 0; } for (var i = 0; i < 50; i = i + 1) { var x = f(3); { var y = x; } }";
    assert_eq!((vec![], None), drive(&mut interpreter, source, 1000));
    assert_eq!(1, interpreter.environment().held());
    assert_eq!(vec![0], interpreter.environment().chain());
}

#[test]
fn scopes_that_a_function_captured_are_kept() {
    let mut interpreter = Interpreter::new();
    let source = "fun make() { var i = 0; fun inc() { i = i + 1; return i; } return inc; } var a = make(); var b = make(); a(); a(); print a(); print b();";
    assert_eq!((vec!["3".to_string(), "1".to_string()], None), drive(&mut interpreter, source, 1000));
    assert_eq!(3, interpreter.environment().held());
    assert_eq!((vec!["4".to_string(), "2".to_string()], None), drive(&mut interpreter, "print a(); print b();", 1000));
    assert_eq!(3, interpreter.environment().held());
}

#[test]
fn scopes_are_let_go_after_a_failure() {
    let mut interpreter = Interpreter::new();
    let source = "fun f() { { { var a = 1; print a + nil; } } } { f(); }";
    assert!(drive(&mut interpreter, source, 1000).1.is_some());
    assert_eq!(1, interpreter.environment().held());
}

fn identifier(text: &str) -> Token {
    Token::new(TokenType::Identifier(text.to_string()), Some(text.to_string()), 1)
}

#[test]
fn a_function_of_more_than_255_parameters_is_not_declared() {
    let declaration = |count: usize| lox::ast::Stmt::Function {
        name: identifier("f"),
        params: (0..count).map(|i| identifier(&format!("p{}", i))).collect(),
        body: vec![],
    };
    let mut interpreter = Interpreter::new();
    interpreter.interpret(vec![declaration(256)]);
    assert_eq!(
        Action::Failed(RuntimeError::TooManyParameters(identifier("f"))),
        interpreter.resume(None, 100)
    );
    assert_eq!(Action::Finished, interpreter.resume(None, 100));
    let (_, error) = drive(&mut interpreter, "print f;", 100);
    assert_eq!(Some(RuntimeError::UndefinedVariable("f".to_string())), error);
    interpreter.interpret(vec![declaration(255)]);
    assert_eq!(Action::Finished, interpreter.resume(None, 100));
    let (lines, error) = drive(&mut interpreter, "print f;", 100);
    assert_eq!(None, error);
    assert_eq!(1, lines.len());
}

#[test]
fn an_abandoned_program_leaves_nothing_to_do() {
    let mut scanner = Scanner::new("var a = 1; print a; print 2;".to_string());
    let statements = Parser::new(scanner.scan_tokens().unwrap()).parse().unwrap();
    let mut interpreter = Interpreter::new();
    interpreter.interpret(statements);
    assert_eq!(Action::Convert("1".to_string()), interpreter.resume(None, 100));
    interpreter.abandon();
    assert_eq!(Action::Finished, interpreter.resume(None, 100));
    assert_eq!(vec!["3".to_string()], output_of(&mut interpreter, "print 3;"));
}

fn output_of(interpreter: &mut Interpreter, source: &str) -> Vec<String> {
    let (lines, error) = drive(interpreter, source, 100);
    assert_eq!(None, error);
    lines
}

#[test]
fn a_block_adds_no_name_to_the_scopes_around_it() {
    let mut interpreter = Interpreter::new();
    let source = "var a = 1; fun f() { var c = 3; return c; } { var b = 2; a = a + f(); print a + b; }";
    assert_eq!(vec!["6".to_string()], output_of(&mut interpreter, source));
    for name in ["b", "c"] {
        let (_, error) = drive(&mut interpreter, &format!("print {};", name), 100);
        assert_eq!(Some(RuntimeError::UndefinedVariable(name.to_string())), error);
    }
    assert_eq!(vec!["4".to_string()], output_of(&mut interpreter, "print a;"));
    assert_eq!(1, interpreter.environment().held());
}

#[test]
fn a_call_gives_what_its_body_returns_from_wherever_it_returns() {
    let source = "fun f(n) { var i = 0; while (true) { { if (i == n) return i * 2; } i = i + 1; } } \
                  fun g() { f(1); } print f(3); print g(); print f(0) + f(2);";
    assert_eq!(vec!["6", "nil", "4"], output(source));
}

fn run_block(interpreter: &mut Interpreter, source: &str) -> (Vec<String>, Option<RuntimeError>) {
    let mut scanner = Scanner::new(source.to_string());
    let statements = Parser::new(scanner.scan_tokens().unwrap()).parse().unwrap();
    interpreter.execute_block(&statements);
    let mut lines = Vec::new();
    let mut reply = None;
    loop {
        let action = interpreter.resume(reply, 1000);
        reply = answer(&action);
        match action {
            Action::Print(Printed::Text(text)) => lines.push(text),
            Action::Print(Printed::Number(bits)) => lines.push(format!("{}", f64::from_bits(bits))),
            Action::Finished => return (lines, None),
            Action::Failed(error) => return (lines, Some(error)),
            _ => {}
        }
    }
}

#[test]
fn a_return_in_a_block_with_nothing_beneath_ends_the_scope_of_the_block() {
    let mut interpreter = Interpreter::new();
    let before = interpreter.environment().chain();
    assert_eq!((vec![], None), run_block(&mut interpreter, "{ var n = nil; return; }"));
    assert_eq!(
        Err(RuntimeError::UndefinedVariable("n".to_string())),
        interpreter.environment().get("n")
    );
    assert_eq!(before, interpreter.environment().chain());
    assert_eq!(1, interpreter.environment().held());
    assert_eq!(Some(lox::data_types::Object::Nil), interpreter.take_outcome());
    assert_eq!(None, interpreter.take_outcome());
}

#[test]
fn a_return_from_nested_blocks_and_loops_ends_all_their_scopes() {
    let mut interpreter = Interpreter::new();
    let source = "var a = \"kept\"; { var b = 1; while (true) { var c = 2; { var d = 3; return \"out\"; } } } print \"never\";";
    assert_eq!((vec![], None), run_block(&mut interpreter, source));
    assert_eq!(vec![0], interpreter.environment().chain());
    assert_eq!(1, interpreter.environment().held());
    for name in ["b", "c", "d"] {
        assert_eq!(
            Err(RuntimeError::UndefinedVariable(name.to_string())),
            interpreter.environment().get(name)
        );
    }
    assert_eq!(
        Ok(lox::data_types::Object::String("kept".to_string())),
        interpreter.environment().get("a")
    );
    assert_eq!(
        Some(lox::data_types::Object::String("out".to_string())),
        interpreter.take_outcome()
    );
    assert_eq!(None, interpreter.take_outcome());
}

#[test]
fn statements_leave_their_outcome_on_top_of_the_values() {
    let mut interpreter = Interpreter::new();
    assert_eq!((vec!["1".to_string()], None), run_block(&mut interpreter, "print 1; var x = 2;"));
    assert_eq!(Some(lox::data_types::Object::Nil), interpreter.take_outcome());
    assert_eq!((vec![], None), run_block(&mut interpreter, "return x + 1; print x;"));
    assert_eq!(
        Some(lox::data_types::Object::Number(3f64.to_bits())),
        interpreter.take_outcome()
    );
    assert_eq!((vec![], None), run_block(&mut interpreter, "fun f() { return 7; } f(); return;"));
    assert_eq!(Some(lox::data_types::Object::Nil), interpreter.take_outcome());
    assert_eq!(None, interpreter.take_outcome());
}

#[test]
fn a_failure_among_statements_gives_up_the_rest_and_their_scopes() {
    let mut interpreter = Interpreter::new();
    let (lines, error) = run_block(&mut interpreter, "{ var n = 1; print n; print missing; print n; }");
    assert_eq!(vec!["1".to_string()], lines);
    assert_eq!(Some(RuntimeError::UndefinedVariable("missing".to_string())), error);
    assert_eq!(vec![0], interpreter.environment().chain());
    assert_eq!(
        Err(RuntimeError::UndefinedVariable("n".to_string())),
        interpreter.environment().get("n")
    );
    assert_eq!(None, interpreter.take_outcome());
}
