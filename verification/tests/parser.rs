use lox::ast::{Expr, Literal, Stmt};
use lox::error::ParseError;
use lox::parser::Parser;
use lox::scanner::Scanner;
use lox::token::TokenTypeDiscriminants::{
    Eof, Identifier, LeftBrace, LeftParen, Number, RightBrace, RightParen, Semicolon,
};
use lox::token::{Token, TokenType};

fn parse_source(source: &str) -> Result<Vec<Stmt>, Vec<ParseError>> {
    let mut scanner = Scanner::new(source.to_string());
    let tokens = scanner.scan_tokens().unwrap();
    Parser::new(tokens).parse()
}

fn shown(source: &str) -> String {
    let statements = parse_source(source).unwrap();
    assert_eq!(1, statements.len());
    match &statements[0] {
        Stmt::Expression(e) => e.to_string(),
        Stmt::Print(e) => e.to_string(),
        other => panic!("not an expression statement: {:?}", other),
    }
}

fn number(digits: &str) -> Expr {
    Expr::Literal(Literal::Number(digits.to_string()))
}

fn name(text: &str, line: usize) -> Token {
    Token::new(TokenType::Identifier(text.to_string()), Some(text.to_string()), line)
}

#[test]
fn parse() {
    let tokens = vec![
        Token::new(TokenType::Minus, None, 1),
        Token::new(TokenType::Number("123".to_string()), None, 1),
        Token::new(TokenType::Star, None, 1),
        Token::new(TokenType::LeftParen, None, 1),
        Token::new(TokenType::Number("45.67".to_string()), None, 1),
        Token::new(TokenType::RightParen, None, 1),
        Token::new(TokenType::Semicolon, None, 1),
    ];

    let mut parser = Parser::new(tokens);
    let expr = parser.parse();

    let expected = Stmt::Expression(Box::new(Expr::Binary {
        left: Box::new(Expr::Unary {
            operator: Token::new(TokenType::Minus, None, 1),
            right: Box::new(number("123")),
        }),
        operator: Token::new(TokenType::Star, None, 1),
        right: Box::new(Expr::Grouping {
            grouping: Box::new(number("45.67")),
        }),
    }));

    assert_eq!(expected, *expr.unwrap().first().unwrap());
}

#[test]
fn ast_display() {
    let expr = Expr::Binary {
        left: Box::new(Expr::Unary {
            operator: Token::new(TokenType::Minus, None, 1),
            right: Box::new(number("123")),
        }),
        operator: Token::new(TokenType::Star, None, 1),
        right: Box::new(Expr::Grouping {
            grouping: Box::new(number("45.67")),
        }),
    };

    let expected = "(* (- 123) (group 45.67))";

    assert_eq!(expected, expr.to_string());
}

#[test]
fn every_expression_form_is_shown() {
    assert_eq!("(a = (or b c))", shown("a = b or c;"));
    assert_eq!("(f (arguments))", shown("f(1, 2);"));
    assert_eq!("(! true)", shown("!true;"));
    assert_eq!("(== nil text)", shown("nil == \"text\";"));
    assert_eq!("(and false 1.50)", shown("false and 1.50;"));
}

#[test]
fn factors_bind_tighter_than_terms() {
    assert_eq!("(+ 1 (* 2 3))", shown("1 + 2 * 3;"));
    assert_eq!("(- (/ 8 4) 1)", shown("8 / 4 - 1;"));
}

#[test]
fn binary_operators_associate_to_the_left() {
    assert_eq!("(- (- 1 2) 3)", shown("1 - 2 - 3;"));
    assert_eq!("(/ (/ 8 4) 2)", shown("8 / 4 / 2;"));
    assert_eq!("(== (== 1 2) 3)", shown("1 == 2 == 3;"));
}

#[test]
fn precedence_runs_from_or_to_unary() {
    assert_eq!(
        "(or a (and b (== c (< d (+ e (* f (- g)))))))",
        shown("a or b and c == d < e + f * -g;")
    );
    assert_eq!("(or (and a b) (and c d))", shown("a and b or c and d;"));
}

#[test]
fn unary_operators_nest() {
    assert_eq!("(! (! (- 1)))", shown("!!-1;"));
}

#[test]
fn assignment_associates_to_the_right() {
    assert_eq!("(a = (b = 3))", shown("a = b = 3;"));
}

#[test]
fn calls_chain_and_keep_their_closing_paren() {
    let statements = parse_source("f(1)(\n);").unwrap();
    let expected = Stmt::Expression(Box::new(Expr::Call {
        callee: Box::new(Expr::Call {
            callee: Box::new(Expr::Variable(name("f", 1))),
            paren: Token::new(TokenType::RightParen, None, 1),
            arguments: vec![number("1")],
        }),
        paren: Token::new(TokenType::RightParen, None, 2),
        arguments: vec![],
    }));
    assert_eq!(vec![expected], statements);
}

#[test]
fn string_and_number_literals_keep_their_text() {
    let statements = parse_source("print \"a b\"; print 007;").unwrap();
    assert_eq!(
        vec![
            Stmt::Print(Box::new(Expr::Literal(Literal::String("a b".to_string())))),
            Stmt::Print(Box::new(number("007"))),
        ],
        statements
    );
}

#[test]
fn var_declaration_with_and_without_initializer() {
    let statements = parse_source("var a; var b = 1;").unwrap();
    assert_eq!(
        vec![
            Stmt::Var { name: name("a", 1), initializer: None },
            Stmt::Var { name: name("b", 1), initializer: Some(number("1")) },
        ],
        statements
    );
}

#[test]
fn block_if_else_while_and_return() {
    let statements =
        parse_source("{ if (a) print 1; else print 2; while (b) { return; } return 3; }").unwrap();
    let expected = Stmt::Block(vec![
        Stmt::If {
            condition: Expr::Variable(name("a", 1)),
            then: Box::new(Stmt::Print(Box::new(number("1")))),
            els: Some(Box::new(Stmt::Print(Box::new(number("2"))))),
        },
        Stmt::While {
            condition: Expr::Variable(name("b", 1)),
            body: Box::new(Stmt::Block(vec![Stmt::Return {
                token: Token::new(TokenType::Return, None, 1),
                value: None,
            }])),
        },
        Stmt::Return { token: Token::new(TokenType::Return, None, 1), value: Some(number("3")) },
    ]);
    assert_eq!(vec![expected], statements);
}

#[test]
fn else_belongs_to_the_nearest_if() {
    let statements = parse_source("if (a) if (b) print 1; else print 2;").unwrap();
    let expected = Stmt::If {
        condition: Expr::Variable(name("a", 1)),
        then: Box::new(Stmt::If {
            condition: Expr::Variable(name("b", 1)),
            then: Box::new(Stmt::Print(Box::new(number("1")))),
            els: Some(Box::new(Stmt::Print(Box::new(number("2"))))),
        }),
        els: None,
    };
    assert_eq!(vec![expected], statements);
}

#[test]
fn function_declaration() {
    let statements = parse_source("fun add(a, b) { return a + b; } fun none() {}").unwrap();
    let expected = vec![
        Stmt::Function {
            name: name("add", 1),
            params: vec![name("a", 1), name("b", 1)],
            body: vec![Stmt::Return {
                token: Token::new(TokenType::Return, None, 1),
                value: Some(Expr::Binary {
                    left: Box::new(Expr::Variable(name("a", 1))),
                    operator: Token::new(TokenType::Plus, None, 1),
                    right: Box::new(Expr::Variable(name("b", 1))),
                }),
            }],
        },
        Stmt::Function { name: name("none", 1), params: vec![], body: vec![] },
    ];
    assert_eq!(expected, statements);
}

#[test]
fn for_becomes_a_while_in_a_block() {
    let with_all = parse_source("for (var i = 0; i < 3; i = i + 1) print i;").unwrap();
    let by_hand = parse_source("{ var i = 0; while (i < 3) { print i; i = i + 1; } }").unwrap();
    assert_eq!(by_hand, with_all);
}

#[test]
fn for_without_clauses_loops_on_true() {
    let statements = parse_source("for (;;) print 1;").unwrap();
    let expected = Stmt::While {
        condition: Expr::Literal(Literal::Boolean(true)),
        body: Box::new(Stmt::Print(Box::new(number("1")))),
    };
    assert_eq!(vec![expected], statements);
}

#[test]
fn for_with_expression_initializer_and_no_increment() {
    let with_for = parse_source("for (i = 0; i < 3;) print i;").unwrap();
    let by_hand = parse_source("{ i = 0; while (i < 3) print i; }").unwrap();
    assert_eq!(by_hand, with_for);
    let without_initializer = parse_source("for (; a; b) c;").unwrap();
    let second = parse_source("while (a) { c; b; }").unwrap();
    assert_eq!(second, without_initializer);
}

#[test]
fn empty_input_is_an_empty_program() {
    assert_eq!(Ok(vec![]), parse_source(""));
    assert_eq!(Ok(vec![]), Parser::new(vec![]).parse());
}

#[test]
fn missing_semicolon_is_reported_with_what_stands_there() {
    assert_eq!(
        Err(vec![ParseError::ExpectedToken { expected: Semicolon, found: Eof, line: 1 }]),
        parse_source("print 1")
    );
    assert_eq!(
        Err(vec![ParseError::ExpectedToken { expected: Semicolon, found: Number, line: 2 }]),
        parse_source("var a = 1\n2;")
    );
}

#[test]
fn missing_parens_braces_and_names_are_reported() {
    assert_eq!(
        Err(vec![ParseError::ExpectedToken { expected: RightParen, found: Semicolon, line: 1 }]),
        parse_source("(1;")
    );
    assert_eq!(
        Err(vec![ParseError::ExpectedToken { expected: LeftParen, found: Identifier, line: 1 }]),
        parse_source("while a) b;")
    );
    assert_eq!(
        Err(vec![ParseError::ExpectedToken { expected: RightBrace, found: Eof, line: 1 }]),
        parse_source("{ a;")
    );
    assert_eq!(
        Err(vec![ParseError::ExpectedToken { expected: Identifier, found: Number, line: 1 }]),
        parse_source("var 1 = 2;")
    );
    assert_eq!(
        Err(vec![ParseError::ExpectedToken { expected: LeftBrace, found: Semicolon, line: 1 }]),
        parse_source("fun f();")
    );
}

#[test]
fn expression_is_expected_where_none_begins() {
    assert_eq!(
        Err(vec![ParseError::ExpectedExpression { found: Semicolon, line: 1 }]),
        parse_source("1 + ;")
    );
    assert_eq!(
        Err(vec![ParseError::ExpectedExpression { found: RightBrace, line: 3 }]),
        parse_source("\n\n}")
    );
}

#[test]
fn only_a_variable_can_be_assigned_to() {
    assert_eq!(
        Err(vec![ParseError::InvalidAssignmentTarget { line: 2 }]),
        parse_source("a +\nb = 1;")
    );
    assert_eq!(
        Err(vec![ParseError::InvalidAssignmentTarget { line: 1 }]),
        parse_source("(a) = 1;")
    );
}

fn call_with(arguments: usize) -> String {
    let list: Vec<String> = (0..arguments).map(|i| i.to_string()).collect();
    format!("f({});", list.join(", "))
}

fn function_with(parameters: usize) -> String {
    let list: Vec<String> = (0..parameters).map(|i| format!("p{}", i)).collect();
    format!("fun f({}) {{}}", list.join(", "))
}

#[test]
fn a_call_takes_255_arguments_and_no_more() {
    match &parse_source(&call_with(255)).unwrap()[0] {
        Stmt::Expression(e) => match &**e {
            Expr::Call { arguments, .. } => assert_eq!(255, arguments.len()),
            other => panic!("not a call: {:?}", other),
        },
        other => panic!("not an expression statement: {:?}", other),
    }
    assert_eq!(
        Err(vec![ParseError::TooManyArguments { line: 1 }]),
        parse_source(&call_with(256))
    );
}

#[test]
fn a_function_takes_255_parameters_and_no_more() {
    match &parse_source(&function_with(255)).unwrap()[0] {
        Stmt::Function { params, .. } => assert_eq!(255, params.len()),
        other => panic!("not a function: {:?}", other),
    }
    assert_eq!(
        Err(vec![ParseError::TooManyParameters { line: 1 }]),
        parse_source(&function_with(256))
    );
}

#[test]
fn every_declaration_that_fails_is_reported() {
    assert_eq!(
        Err(vec![
            ParseError::ExpectedExpression { found: Semicolon, line: 1 },
            ParseError::ExpectedToken { expected: Semicolon, found: Eof, line: 3 },
        ]),
        parse_source("print ;\nprint 2;\nprint 3")
    );
}

#[test]
fn recovery_resumes_after_a_semicolon_or_before_a_statement() {
    let mut scanner = Scanner::new("1 + + 2 3; print 4; ) ( var x;".to_string());
    let tokens = scanner.scan_tokens().unwrap();
    let mut parser = Parser::new(tokens);
    assert_eq!(None, parser.next_if(Semicolon));
    assert!(parser.next_if(Number).is_some());
    parser.synchronize();
    assert_eq!(Some(Token::new(TokenType::Print, None, 1)), parser.peek());
    assert_eq!(Some(Token::new(TokenType::Semicolon, None, 1)), parser.prev());
    assert_eq!(Some(Token::new(TokenType::Print, None, 1)), parser.next());
    parser.synchronize();
    parser.synchronize();
    assert_eq!(Some(Token::new(TokenType::Var, None, 1)), parser.peek());
    parser.synchronize();
    assert_eq!(None, parser.peek());
    assert_eq!(Eof, parser.peek_kind());
    parser.synchronize();
    assert_eq!(None, parser.peek());
}

#[test]
fn a_declaration_given_up_in_a_block_leaves_the_rest() {
    let mut scanner = Scanner::new("{ print ; print 2; } print 3;".to_string());
    let tokens = scanner.scan_tokens().unwrap();
    let mut parser = Parser::new(tokens);
    assert_eq!(
        Err(vec![ParseError::ExpectedExpression { found: Semicolon, line: 1 }]),
        parser.parse()
    );
    let mut without = Parser::new(vec![
        Token::new(TokenType::LeftBrace, None, 1),
        Token::new(TokenType::Plus, None, 1),
        Token::new(TokenType::Semicolon, None, 1),
        Token::new(TokenType::Nil, None, 1),
        Token::new(TokenType::Semicolon, None, 1),
        Token::new(TokenType::RightBrace, None, 1),
        Token::new(TokenType::Eof, None, 1),
    ]);
    assert_eq!(
        Err(vec![ParseError::ExpectedExpression { found: lox::token::TokenTypeDiscriminants::Plus, line: 1 }]),
        without.parse()
    );
}

#[test]
fn tokens_after_the_end_of_input_are_not_read() {
    let tokens = vec![
        Token::new(TokenType::Nil, None, 1),
        Token::new(TokenType::Semicolon, None, 1),
        Token::new(TokenType::Eof, None, 1),
        Token::new(TokenType::Plus, None, 1),
    ];
    assert_eq!(
        Ok(vec![Stmt::Expression(Box::new(Expr::Literal(Literal::Nil)))]),
        Parser::new(tokens).parse()
    );
}

#[test]
fn copies_are_equal_to_what_they_copy() {
    let source = "fun f(a) { for (var i = 0; i < a; i = i + 1) { if (i) print -i; else f(i, \"s\"); } return nil or true; }";
    let statements = parse_source(source).unwrap();
    let copies: Vec<Stmt> = statements.iter().map(|s| s.duplicate()).collect();
    assert_eq!(statements, copies);
    assert_eq!(statements, lox::ast::duplicate_stmts(&statements));
}

#[test]
fn prefix_form_of_unary_and_assignment_reads_back() {
    for source in ["nil;", "true;", "false;", "12.50;", "x_1;", "-1;", "!-!y;", "a = b = -3.25;", "a = !nil;"] {
        let statements = parse_source(source).unwrap();
        let written = match &statements[0] {
            Stmt::Expression(e) => e.duplicate(),
            other => panic!("not an expression statement: {:?}", other),
        };
        let printed = format!("{};", written.to_string());
        let again = parse_source(&printed).unwrap();
        let read = match &again[0] {
            Stmt::Expression(e) => e.duplicate(),
            other => panic!("not an expression statement: {:?}", other),
        };
        assert_eq!(written, without_grouping(read), "{}", printed);
    }
}

fn without_grouping(e: Expr) -> Expr {
    match e {
        Expr::Grouping { grouping } => without_grouping(*grouping),
        Expr::Unary { operator, right } => {
            Expr::Unary { operator, right: Box::new(without_grouping(*right)) }
        }
        Expr::Assign { name, value } => Expr::Assign { name, value: Box::new(without_grouping(*value)) },
        other => other,
    }
}

#[test]
fn prefix_form_of_a_binary_operator_does_not_read_back() {
    assert_eq!("(+ 1 2)", shown("1 + 2;"));
    assert_eq!(
        Err(vec![ParseError::ExpectedExpression { found: lox::token::TokenTypeDiscriminants::Plus, line: 1 }]),
        parse_source("(+ 1 2);")
    );
    assert_eq!("text", shown("\"text\";"));
}

fn expression_of(source: &str) -> Expr {
    let statements = parse_source(source).unwrap();
    assert_eq!(1, statements.len(), "{}", source);
    match &statements[0] {
        Stmt::Expression(e) => e.duplicate(),
        other => panic!("not an expression statement: {:?}", other),
    }
}

fn first_line(token: Token) -> Token {
    Token::new(token.token_type, token.lexeme, 1)
}

fn bare(e: Expr) -> Expr {
    match e {
        Expr::Grouping { grouping } => bare(*grouping),
        Expr::Unary { operator, right } => {
            Expr::Unary { operator: first_line(operator), right: Box::new(bare(*right)) }
        }
        Expr::Binary { left, operator, right } => Expr::Binary {
            left: Box::new(bare(*left)),
            operator: first_line(operator),
            right: Box::new(bare(*right)),
        },
        Expr::Logical { left, operator, right } => Expr::Logical {
            left: Box::new(bare(*left)),
            operator: first_line(operator),
            right: Box::new(bare(*right)),
        },
        Expr::Assign { name, value } => {
            Expr::Assign { name: first_line(name), value: Box::new(bare(*value)) }
        }
        Expr::Call { callee, paren, arguments } => Expr::Call {
            callee: Box::new(bare(*callee)),
            paren: first_line(paren),
            arguments: arguments.into_iter().map(bare).collect(),
        },
        Expr::Variable(name) => Expr::Variable(first_line(name)),
        Expr::Literal(l) => Expr::Literal(l),
    }
}

#[test]
fn source_text_of_each_expression_form() {
    assert_eq!("nil", expression_of("nil;").to_source());
    assert_eq!("true", expression_of("true;").to_source());
    assert_eq!("12.50", expression_of("12.50;").to_source());
    assert_eq!("\"a b\"", expression_of("\"a b\";").to_source());
    assert_eq!("\"\"", expression_of("\"\";").to_source());
    assert_eq!("x_1", expression_of("x_1;").to_source());
    assert_eq!("(1)", expression_of("(1);").to_source());
    assert_eq!("(-a)", expression_of("-a;").to_source());
    assert_eq!("(!(!b))", expression_of("!!b;").to_source());
    assert_eq!("(1 + (2 * 3))", expression_of("1 + 2 * 3;").to_source());
    assert_eq!("((1 - 2) - 3)", expression_of("1 - 2 - 3;").to_source());
    assert_eq!("(((1 + 2)) * 3)", expression_of("(1 + 2) * 3;").to_source());
    assert_eq!("(a = (b or (c and (!d))))", expression_of("a = b or c and !d;").to_source());
    assert_eq!("(((a <= b) == c) != d)", expression_of("a <= b == c != d;").to_source());
    assert_eq!("(f())", expression_of("f();").to_source());
    assert_eq!("(f(1))", expression_of("f(1);").to_source());
    assert_eq!("((f(1, \"s\"))((x / 2), y))", expression_of("f(1, \"s\")(x / 2, y);").to_source());
}

#[test]
fn source_text_reads_back_as_the_expression() {
    for source in [
        "nil;",
        "false;",
        "0.5;",
        "\"\";",
        "\"two\nlines\";",
        "\"a // b\";",
        "name;",
        "-1;",
        "!-!y;",
        "1 + 2;",
        "1 + 2 * 3 - 4 / 5;",
        "(1 + 2) * (3 - 4);",
        "((((7))));",
        "a < b == c >= d != e > f;",
        "a or b and c or !d;",
        "a = b = c + 1;",
        "a = (b = 2) or nil;",
        "f();",
        "f(1)(2, 3)();",
        "f(a = 1, g(x, \"s\"), -h(nil));",
        "-f(1) * !g();",
        "a\n  +\n  b(\n 1,\n 2\n);",
        "x // the rest is dropped\n  = 3;",
    ] {
        let written = expression_of(source);
        let printed = format!("{};", written.to_source());
        let read = expression_of(&printed);
        assert_eq!(bare(written), bare(read), "{}", printed);
    }
}

#[test]
fn source_text_of_a_long_call_reads_back() {
    let written = expression_of(&call_with(255));
    let printed = format!("{};", written.to_source());
    assert_eq!(bare(written), bare(expression_of(&printed)));
}

#[test]
fn source_text_keeps_what_the_prefix_form_loses() {
    let sum = expression_of("1 + 2;");
    assert_eq!("(+ 1 2)", sum.to_string());
    assert_eq!("(1 + 2)", sum.to_source());
    let text = expression_of("\"text\";");
    assert_eq!("text", text.to_string());
    assert_eq!("\"text\"", text.to_source());
}
