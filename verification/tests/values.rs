use lox::data_types::{Applied, Arithmetic, Callable, Clock, Function, Object, Printed, Return};
use lox::environment::{Environment, Scope};
use lox::error::{EvaluationError, RuntimeError};
use lox::interpreter::Interpreter;
use lox::number::{compare, negate, not_a_number, Order};
use lox::token::TokenTypeDiscriminants::{
    Bang, BangEqual, Comma, EqualEqual, Greater, GreaterEqual, Less, LessEqual, Minus, Plus, Slash, Star,
};
use lox::token::{Token, TokenType};

fn number(value: f64) -> Object {
    Object::Number(value.to_bits())
}

fn text(value: &str) -> Object {
    Object::String(value.to_string())
}

fn name(text: &str) -> Token {
    Token::new(TokenType::Identifier(text.to_string()), Some(text.to_string()), 1)
}

fn samples() -> Vec<f64> {
    vec![
        0.0,
        -0.0,
        1.0,
        -1.0,
        1.5,
        -1.5,
        f64::MIN_POSITIVE,
        -f64::MIN_POSITIVE,
        5e-324,
        -5e-324,
        f64::MAX,
        f64::MIN,
        f64::INFINITY,
        f64::NEG_INFINITY,
        f64::NAN,
        -f64::NAN,
        f64::from_bits(0x7ff0_0000_0000_0001),
        4567.2301,
        1e21,
        0.1 + 0.2,
        0.3,
    ]
}

#[test]
fn doubles_compare_by_their_bits_as_the_machine_compares_them() {
    for a in samples() {
        for b in samples() {
            let expected = match a.partial_cmp(&b) {
                Some(std::cmp::Ordering::Less) => Some(Order::Less),
                Some(std::cmp::Ordering::Equal) => Some(Order::Equal),
                Some(std::cmp::Ordering::Greater) => Some(Order::Greater),
                None => None,
            };
            assert_eq!(expected, compare(a.to_bits(), b.to_bits()), "{} against {}", a, b);
        }
    }
}

#[test]
fn negation_and_nan_go_by_the_bits() {
    for a in samples() {
        assert_eq!((-a).to_bits(), negate(a.to_bits()));
        assert_eq!(a.is_nan(), not_a_number(a.to_bits()));
    }
    assert_eq!(0x8000_0000_0000_0000, negate(0));
}

#[test]
fn values_are_equal_as_the_language_has_it() {
    assert!(Object::Nil == Object::Nil);
    assert!(Object::Boolean(true) == Object::Boolean(true));
    assert!(Object::Boolean(true) != Object::Boolean(false));
    assert!(text("a") == text("a"));
    assert!(text("a") != text("b"));
    assert!(number(1.0) == number(1.0));
    assert!(number(0.0) == number(-0.0));
    assert!(number(f64::NAN) != number(f64::NAN));
    assert!(number(1.0) != text("1"));
    assert!(Object::Nil != Object::Boolean(false));
    assert!(Object::Builtin(Clock) != Object::Builtin(Clock));
    let function = std::rc::Rc::new(Function::new(name("f"), vec![], vec![], vec![0]));
    assert!(Object::Function(function.clone()) != Object::Function(function));
}

#[test]
fn truthiness() {
    assert!(!Object::Nil.is_truthy());
    assert!(!Object::Boolean(false).is_truthy());
    assert!(Object::Boolean(true).is_truthy());
    assert!(number(0.0).is_truthy());
    assert!(text("").is_truthy());
    assert!(Object::Builtin(Clock).is_truthy());
    assert_eq!(Object::Boolean(true), Object::Nil.not());
    assert_eq!(Object::Boolean(false), number(0.0).not());
}

#[test]
fn arithmetic_on_numbers_is_asked_of_the_host() {
    let two = number(2.0);
    let three = number(3.0);
    let expected = |operation| Applied::Compute(operation, 2f64.to_bits(), 3f64.to_bits());
    for (kind, operation) in [
        (Plus, Arithmetic::Add),
        (Minus, Arithmetic::Subtract),
        (Star, Arithmetic::Multiply),
        (Slash, Arithmetic::Divide),
    ] {
        match (two.binary(kind, &three).unwrap(), expected(operation)) {
            (Applied::Compute(a, b, c), Applied::Compute(x, y, z)) => assert_eq!((a, b, c), (x, y, z)),
            other => panic!("not arithmetic: {:?}", other),
        }
    }
}

fn value_of(applied: Result<Applied, EvaluationError>) -> Object {
    match applied {
        Ok(Applied::Value(v)) => v,
        other => panic!("not a value: {:?}", other),
    }
}

#[test]
fn binary_operators_on_values() {
    assert_eq!(text("ab"), value_of(text("a").binary(Plus, &text("b"))));
    assert_eq!(text("a"), value_of(text("a").binary(Plus, &text(""))));
    assert_eq!(Object::Boolean(true), value_of(number(1.0).binary(Less, &number(2.0))));
    assert_eq!(Object::Boolean(false), value_of(number(1.0).binary(Greater, &number(2.0))));
    assert_eq!(Object::Boolean(true), value_of(number(2.0).binary(LessEqual, &number(2.0))));
    assert_eq!(Object::Boolean(true), value_of(number(2.0).binary(GreaterEqual, &number(2.0))));
    assert_eq!(Object::Boolean(false), value_of(number(f64::NAN).binary(LessEqual, &number(2.0))));
    assert_eq!(Object::Boolean(false), value_of(number(2.0).binary(GreaterEqual, &number(f64::NAN))));
    assert_eq!(Object::Boolean(true), value_of(text("abc").binary(Less, &text("abd"))));
    assert_eq!(Object::Boolean(true), value_of(text("Z").binary(Less, &text("a"))));
    assert_eq!(Object::Boolean(true), value_of(text("z").binary(Less, &text("é"))));
    assert_eq!(Object::Boolean(true), value_of(text("é").binary(Less, &text("日本"))));
    assert_eq!(Object::Boolean(true), value_of(Object::Nil.binary(EqualEqual, &Object::Nil)));
    assert_eq!(Object::Boolean(true), value_of(Object::Nil.binary(BangEqual, &number(0.0))));
}

#[test]
fn binary_operators_refuse_what_they_cannot_take() {
    let error = |r: Result<Applied, EvaluationError>| r.unwrap_err();
    assert_eq!(EvaluationError::StringConcatination, error(text("a").binary(Plus, &Object::Nil)));
    assert_eq!(EvaluationError::StringConcatination, error(Object::Nil.binary(Plus, &text("a"))));
    assert_eq!(EvaluationError::Arithmatic(Plus), error(Object::Nil.binary(Plus, &number(1.0))));
    assert_eq!(EvaluationError::Arithmatic(Minus), error(text("a").binary(Minus, &text("b"))));
    assert_eq!(EvaluationError::Arithmatic(Star), error(number(1.0).binary(Star, &Object::Nil)));
    assert_eq!(EvaluationError::Arithmatic(Slash), error(Object::Boolean(true).binary(Slash, &number(1.0))));
    assert_eq!(EvaluationError::Comparision(Less), error(text("a").binary(Less, &number(1.0))));
    assert_eq!(EvaluationError::Comparision(Greater), error(Object::Nil.binary(Greater, &Object::Nil)));
    assert_eq!(EvaluationError::Operator(Comma), error(number(1.0).binary(Comma, &number(1.0))));
    assert_eq!(EvaluationError::Operator(Bang), error(number(1.0).binary(Bang, &number(1.0))));
}

#[test]
fn unary_operators() {
    assert_eq!(Ok(number(-2.0)), number(2.0).unary(Minus));
    assert_eq!(Ok(number(-2.0)), number(2.0).negated());
    assert_eq!(Err(EvaluationError::Negation), text("a").unary(Minus));
    assert_eq!(Err(EvaluationError::Negation), Object::Nil.negated());
    assert_eq!(Ok(Object::Boolean(true)), Object::Nil.unary(Bang));
    assert_eq!(Ok(Object::Boolean(false)), text("").unary(Bang));
    assert_eq!(Err(EvaluationError::Operator(Plus)), number(1.0).unary(Plus));
}

#[test]
fn values_compare_where_they_can() {
    assert_eq!(Some(Order::Less), number(1.0).compare(&number(2.0)));
    assert_eq!(Some(Order::Equal), text("a").compare(&text("a")));
    assert_eq!(Some(Order::Greater), text("b").compare(&text("a")));
    assert_eq!(Some(Order::Less), text("").compare(&text("a")));
    assert_eq!(None, number(f64::NAN).compare(&number(1.0)));
    assert_eq!(None, number(1.0).compare(&text("1")));
    assert_eq!(None, Object::Nil.compare(&Object::Nil));
}

#[test]
fn values_are_written_by_their_kind() {
    assert_eq!(Printed::Text("nil".to_string()), Object::Nil.printed());
    assert_eq!(Printed::Text("true".to_string()), Object::Boolean(true).printed());
    assert_eq!(Printed::Text("false".to_string()), Object::Boolean(false).printed());
    assert_eq!(Printed::Text("a b".to_string()), text("a b").printed());
    assert_eq!(Printed::Number(1.5f64.to_bits()), number(1.5).printed());
    assert_eq!(Printed::Text("<fn placehodler>".to_string()), Object::Builtin(Clock).printed());
}

#[test]
fn copies_of_values_are_the_same_values() {
    for value in [Object::Nil, Object::Boolean(true), text("a"), number(2.5)] {
        assert_eq!(value, value.duplicate());
    }
    let function = Object::Function(std::rc::Rc::new(Function::new(name("f"), vec![name("a")], vec![], vec![0, 3])));
    match (&function, function.duplicate()) {
        (Object::Function(a), Object::Function(b)) => assert!(std::rc::Rc::ptr_eq(a, &b)),
        other => panic!("not functions: {:?}", other),
    }
}

#[test]
fn arity_is_the_number_of_parameters() {
    assert_eq!(0, Clock.arity());
    assert_eq!(0, Function::new(name("f"), vec![], vec![], vec![0]).arity());
    let function = Function::new(name("f"), vec![name("a"), name("b")], vec![], vec![0, 1]);
    assert_eq!(2, function.arity());
    assert_eq!(&name("f"), function.name());
    assert_eq!(&vec![name("a"), name("b")], function.params());
    assert_eq!(0, function.body().len());
    assert_eq!(&vec![0, 1], function.closure());
    let many: Vec<Token> = (0..255).map(|i| name(&format!("p{}", i))).collect();
    let function = Function::new(name("f"), many, vec![], vec![0]);
    assert_eq!(255, function.arity());
    assert_eq!(255, function.params().len());
}

#[test]
fn return_outcomes() {
    assert!(Return::Value(Object::Nil).is_explicit());
    assert!(Return::Bare.is_explicit());
    assert!(!Return::Nothing.is_explicit());
    assert_eq!(number(1.0), Return::Value(number(1.0)).into_value());
    assert_eq!(Object::Nil, Return::Bare.into_value());
    assert_eq!(Object::Nil, Return::Nothing.into_value());
}

#[test]
fn scope_binds_names() {
    let mut scope = Scope::new();
    let a = "a".to_string();
    assert!(!scope.contains_key(&a));
    assert_eq!(None, scope.get(&a));
    scope.insert("a".to_string(), number(1.0));
    scope.insert("b".to_string(), text("x"));
    scope.insert("a".to_string(), number(2.0));
    assert!(scope.contains_key(&a));
    assert_eq!(Some(number(2.0)), scope.get(&a));
    assert_eq!(Some(text("x")), scope.get(&"b".to_string()));
    let copy = scope.duplicate();
    scope.insert("a".to_string(), number(3.0));
    assert_eq!(Some(number(2.0)), copy.get(&a));
}

#[test]
fn environment_defines_and_finds() {
    let mut environment = Environment::new();
    assert!(!environment.is_empty());
    assert_eq!(Err(RuntimeError::UndefinedVariable("a".to_string())), environment.get("a"));
    environment.define("a".to_string(), number(1.0));
    assert_eq!(Ok(number(1.0)), environment.get("a"));
    environment.new_scope();
    assert_eq!(Ok(number(1.0)), environment.get("a"));
    environment.define("a".to_string(), number(2.0));
    environment.define("b".to_string(), number(3.0));
    assert_eq!(Ok(number(2.0)), environment.get("a"));
    assert_eq!(Ok(number(1.0)), environment.get_global("a"));
    assert_eq!(Ok(number(2.0)), environment.get_at(0, "a"));
    assert_eq!(Ok(number(1.0)), environment.get_at(1, "a"));
    assert_eq!(Err(RuntimeError::UndefinedVariable("b".to_string())), environment.get_at(1, "b"));
    assert_eq!(Err(RuntimeError::UndefinedVariable("b".to_string())), environment.get_global("b"));
    assert_eq!(Err(RuntimeError::ScopeDepth(2)), environment.get_at(2, "a"));
    environment.end_scope();
    assert_eq!(Ok(number(1.0)), environment.get("a"));
    assert_eq!(Err(RuntimeError::UndefinedVariable("b".to_string())), environment.get("b"));
}

#[test]
fn the_global_scope_is_never_ended() {
    let mut environment = Environment::new();
    environment.define("a".to_string(), number(1.0));
    environment.end_scope();
    environment.end_scope();
    assert_eq!(vec![0], environment.chain());
    assert_eq!(Ok(number(1.0)), environment.get("a"));
}

#[test]
fn environment_assigns_where_the_name_is_bound() {
    let mut environment = Environment::new();
    environment.define("a".to_string(), number(1.0));
    environment.new_scope();
    environment.define("b".to_string(), number(2.0));
    assert_eq!(Ok(()), environment.assign("a".to_string(), number(10.0)));
    assert_eq!(Ok(()), environment.assign("b".to_string(), number(20.0)));
    assert_eq!(
        Err(RuntimeError::UndefinedVariable("c".to_string())),
        environment.assign("c".to_string(), number(30.0))
    );
    assert_eq!(Ok(number(10.0)), environment.get_global("a"));
    assert_eq!(Ok(number(20.0)), environment.get_at(0, "b"));
    assert_eq!(Ok(()), environment.assign_global("a".to_string(), number(11.0)));
    assert_eq!(
        Err(RuntimeError::UndefinedVariable("b".to_string())),
        environment.assign_global("b".to_string(), number(21.0))
    );
    assert_eq!(Ok(()), environment.assign_at(1, "b".to_string(), number(22.0)));
    assert_eq!(Ok(()), environment.assign_at(0, "a".to_string(), number(12.0)));
    assert_eq!(Err(RuntimeError::ScopeDepth(2)), environment.assign_at(2, "a".to_string(), number(0.0)));
    assert_eq!(Ok(number(12.0)), environment.get("a"));
    assert_eq!(Ok(number(20.0)), environment.get("b"));
    environment.end_scope();
    assert_eq!(Ok(number(11.0)), environment.get("a"));
    assert_eq!(Ok(number(22.0)), environment.get("b"));
}

#[test]
fn a_child_environment_is_a_copy_with_one_more_scope() {
    let mut parent = Environment::new();
    parent.define("a".to_string(), number(1.0));
    let mut child = Environment::contains(&parent);
    assert_eq!(vec![0, 1], child.chain());
    child.define("b".to_string(), number(2.0));
    assert_eq!(Ok(()), child.assign("a".to_string(), number(3.0)));
    assert_eq!(Ok(number(3.0)), child.get("a"));
    assert_eq!(Ok(number(1.0)), parent.get("a"));
    assert_eq!(Err(RuntimeError::UndefinedVariable("b".to_string())), parent.get("b"));
    assert_eq!(Ok(number(1.0)), parent.duplicate().get("a"));
}

#[test]
fn entering_a_function_brings_its_scopes_in_sight() {
    let mut environment = Environment::new();
    environment.define("g".to_string(), text("global"));
    environment.new_scope();
    environment.define("a".to_string(), text("captured"));
    let closure = environment.capture();
    environment.end_scope();
    assert_eq!(2, environment.held());
    environment.new_scope();
    environment.define("a".to_string(), text("caller"));
    let caller = environment.enter(&closure).unwrap();
    assert_eq!(vec![0, 2], caller);
    assert_eq!(vec![0, 1, 3], environment.chain());
    assert_eq!(Ok(text("captured")), environment.get("a"));
    assert_eq!(Ok(text("global")), environment.get("g"));
    environment.define("p".to_string(), text("parameter"));
    assert_eq!(4, environment.held());
    assert_eq!(Ok(()), environment.restore(caller));
    assert_eq!(3, environment.held());
    assert_eq!(Ok(text("caller")), environment.get("a"));
    assert_eq!(Err(RuntimeError::UndefinedVariable("p".to_string())), environment.get("p"));
}

#[test]
fn scopes_that_do_not_exist_are_refused() {
    let mut environment = Environment::new();
    assert_eq!(Err(RuntimeError::ScopeDepth(7)), environment.enter(&vec![0, 7, 9]));
    assert_eq!(Err(RuntimeError::ScopeDepth(1)), environment.restore(vec![1]));
    assert_eq!(Err(RuntimeError::ScopeDepth(0)), environment.restore(vec![]));
    assert_eq!(vec![0], environment.chain());
    assert_eq!(Ok(vec![0]), environment.enter(&vec![]));
    assert_eq!(vec![1], environment.chain());
}

#[test]
fn a_function_with_stray_scopes_cannot_be_called() {
    let mut environment = Environment::new();
    let function = Function::new(name("f"), vec![], vec![], vec![0, 5]);
    environment.define("f".to_string(), Object::Function(std::rc::Rc::new(function)));
    let mut interpreter = Interpreter::new().with_environment(environment);
    let mut scanner = lox::scanner::Scanner::new("f();".to_string());
    let statements = lox::parser::Parser::new(scanner.scan_tokens().unwrap()).parse().unwrap();
    interpreter.interpret(statements);
    assert_eq!(
        lox::interpreter::Action::Failed(RuntimeError::ScopeDepth(5)),
        interpreter.resume(None, 100)
    );
}

#[test]
fn the_global_scope_of_a_new_machine_has_the_clock() {
    let interpreter = Interpreter::new();
    match interpreter.environment().get("clock") {
        Ok(Object::Builtin(Clock)) => {}
        other => panic!("no clock: {:?}", other),
    }
}

#[test]
fn a_scope_that_ends_is_let_go_unless_a_function_captured_it() {
    let mut environment = Environment::new();
    environment.new_scope();
    environment.new_scope();
    environment.define("a".to_string(), number(1.0));
    assert_eq!(3, environment.held());
    environment.end_scope();
    assert_eq!(2, environment.held());
    assert_eq!(vec![0, 1], environment.capture());
    environment.new_scope();
    environment.end_scope();
    assert_eq!(2, environment.held());
    environment.end_scope();
    assert_eq!(2, environment.held());
    assert_eq!(vec![0], environment.chain());
    environment.new_scope();
    assert_eq!(vec![0, 2], environment.chain());
    environment.end_scope();
    assert_eq!(2, environment.held());
}
