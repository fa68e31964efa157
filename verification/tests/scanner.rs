use lox::error::{ErrorLoc, ParseError};
use lox::scanner::Scanner;
use lox::token::TokenTypeDiscriminants::{Dot, Eof, Identifier, Number, Slash};
use lox::token::{Token, TokenType, TokenTypeDiscriminants};

fn scan(source: &str) -> Result<Vec<Token>, ParseError> {
    let mut scanner = Scanner::new(source.to_string());
    scanner.scan_tokens()
}

fn kinds(source: &str) -> Vec<TokenTypeDiscriminants> {
    scan(source).unwrap().iter().map(|t| t.kind()).collect()
}

#[test]
fn test_scanner() {
    let input = String::from("+-.,({;*})>>===!!==<<=/");

    let mut scanner = Scanner::new(input);
    let tokens = scanner.scan_tokens().unwrap();
    let mut iter = tokens.iter();

    assert_eq!(TokenType::Plus, iter.next().unwrap().token_type);
    assert_eq!(TokenType::Minus, iter.next().unwrap().token_type);
    assert_eq!(TokenType::Dot, iter.next().unwrap().token_type);
    assert_eq!(TokenType::Comma, iter.next().unwrap().token_type);
    assert_eq!(TokenType::LeftParen, iter.next().unwrap().token_type);
    assert_eq!(TokenType::LeftBrace, iter.next().unwrap().token_type);
    assert_eq!(TokenType::Semicolon, iter.next().unwrap().token_type);
    assert_eq!(TokenType::Star, iter.next().unwrap().token_type);
    assert_eq!(TokenType::RightBrace, iter.next().unwrap().token_type);
    assert_eq!(TokenType::RightParen, iter.next().unwrap().token_type);
    assert_eq!(TokenType::Greater, iter.next().unwrap().token_type);
    assert_eq!(TokenType::GreaterEqual, iter.next().unwrap().token_type);
    assert_eq!(TokenType::EqualEqual, iter.next().unwrap().token_type);
    assert_eq!(TokenType::Bang, iter.next().unwrap().token_type);
    assert_eq!(TokenType::BangEqual, iter.next().unwrap().token_type);
    assert_eq!(TokenType::Equal, iter.next().unwrap().token_type);
    assert_eq!(TokenType::Less, iter.next().unwrap().token_type);
    assert_eq!(TokenType::LessEqual, iter.next().unwrap().token_type);
    assert_eq!(TokenType::Slash, iter.next().unwrap().token_type);
    assert_eq!(TokenType::Eof, iter.next().unwrap().token_type);
    assert_eq!(None, iter.next());
}

#[test]
fn test_comments() {
    let input = String::from("// This should be ignored");

    let mut scanner = Scanner::new(input);
    let tokens = scanner.scan_tokens().unwrap();
    let mut iter = tokens.iter();

    assert_eq!(TokenType::Eof, iter.next().unwrap().token_type);
    assert_eq!(None, iter.next());
}

#[test]
fn test_whitespace() {
    let input = String::from(" \r\r\t\r  \t");

    let mut scanner = Scanner::new(input);
    let tokens = scanner.scan_tokens().unwrap();
    let mut iter = tokens.iter();

    assert_eq!(TokenType::Eof, iter.next().unwrap().token_type);
    assert_eq!(None, iter.next());
}

#[test]
fn test_newlines() {
    let input = String::from("\n\n\n");
    let mut scanner = Scanner::new(input);
    let _ = scanner.scan_tokens();

    assert_eq!(4, scanner.line())
}

#[test]
fn test_string() {
    let input = String::from("\"abc\n123\"");
    let expected = String::from("abc\n123");

    let mut scanner = Scanner::new(input.clone());
    let _ = scanner.scan_tokens();

    assert_eq!(
        TokenType::String(expected),
        scanner.tokens().first().unwrap().token_type
    )
}

#[test]
fn test_unterminated_string() {
    let input = String::from("\"abc");

    let mut scanner = Scanner::new(input.clone());
    let result = scanner.scan_tokens();
    assert!(result.is_err());
}

#[test]
fn test_numbers() {
    let inputs = vec![123 as f64, 4567.2301];

    for input in inputs {
        let mut scanner = Scanner::new(input.to_string());
        let _ = scanner.scan_tokens();

        let first = scanner.tokens().first().unwrap();
        assert_eq!(TokenType::Number(input.to_string()), first.token_type);
        match &first.token_type {
            TokenType::Number(digits) => assert_eq!(input, digits.parse::<f64>().unwrap()),
            other => panic!("not a number: {:?}", other),
        }
    }
}

#[test]
fn test_identifiers_and_keywords() {
    let input = r#"and
                       class
                       else
                       false
                       for
                       fun
                       if
                       nil
                       or
                       print
                       return
                       super
                       this
                       true
                       var
                       while
                       andy
                       while_true"#
        .to_string();

    let mut scanner = Scanner::new(input);
    let tokens = scanner.scan_tokens().unwrap();
    let mut iter = tokens.iter();

    assert_eq!(TokenType::And, iter.next().unwrap().token_type);
    assert_eq!(TokenType::Class, iter.next().unwrap().token_type);
    assert_eq!(TokenType::Else, iter.next().unwrap().token_type);
    assert_eq!(TokenType::False, iter.next().unwrap().token_type);
    assert_eq!(TokenType::For, iter.next().unwrap().token_type);
    assert_eq!(TokenType::Fun, iter.next().unwrap().token_type);
    assert_eq!(TokenType::If, iter.next().unwrap().token_type);
    assert_eq!(TokenType::Nil, iter.next().unwrap().token_type);
    assert_eq!(TokenType::Or, iter.next().unwrap().token_type);
    assert_eq!(TokenType::Print, iter.next().unwrap().token_type);
    assert_eq!(TokenType::Return, iter.next().unwrap().token_type);
    assert_eq!(TokenType::Super, iter.next().unwrap().token_type);
    assert_eq!(TokenType::This, iter.next().unwrap().token_type);
    assert_eq!(TokenType::True, iter.next().unwrap().token_type);
    assert_eq!(TokenType::Var, iter.next().unwrap().token_type);
    assert_eq!(TokenType::While, iter.next().unwrap().token_type);
    assert_eq!(
        TokenType::Identifier("andy".to_string()),
        iter.next().unwrap().token_type
    );
    assert_eq!(
        TokenType::Identifier("while_true".to_string()),
        iter.next().unwrap().token_type
    );
}

#[test]
fn last_token_is_the_only_eof() {
    for source in ["", "1", "a b c", "// note\nprint 1;", "\"s\" + \"t\"", "\n\n"] {
        let kinds = kinds(source);
        assert_eq!(Some(&TokenTypeDiscriminants::Eof), kinds.last());
        assert_eq!(1, kinds.iter().filter(|k| **k == TokenTypeDiscriminants::Eof).count());
    }
}

#[test]
fn lines_never_decrease() {
    let tokens = scan("a\nb \"x\ny\" c\n\n// note\nd").unwrap();
    let lines: Vec<usize> = tokens.iter().map(|t| t.line).collect();
    assert_eq!(vec![1, 2, 3, 3, 6, 6], lines);
}

#[test]
fn blank_source_counts_its_line_feeds() {
    let mut scanner = Scanner::new(" \r\t\n \n\t\n".to_string());
    let tokens = scanner.scan_tokens().unwrap();
    assert_eq!(vec![Token::new(TokenType::Eof, None, 4)], tokens);
    assert_eq!(4, scanner.line());
}

#[test]
fn string_token_stands_on_its_last_line() {
    let tokens = scan("\"a\nb\nc\" x").unwrap();
    assert_eq!(
        Token::new(TokenType::String("a\nb\nc".to_string()), Some("\"a\nb\nc\"".to_string()), 3),
        tokens[0]
    );
    assert_eq!(3, tokens[1].line);
}

#[test]
fn string_keeps_backslashes_as_written() {
    let tokens = scan("\"a\\nb\"").unwrap();
    assert_eq!(TokenType::String("a\\nb".to_string()), tokens[0].token_type);
}

#[test]
fn unterminated_string_reports_where_it_began() {
    assert_eq!(
        Err(ParseError::UnterminatedString(ErrorLoc { line: 2, at: 3 })),
        scan("a\n \"bc\nd")
    );
}

#[test]
fn unexpected_character_is_refused_with_its_line() {
    assert_eq!(
        Err(ParseError::UnexpectedCharacter { character: '@', line: 2 }),
        scan("a\n@")
    );
    assert_eq!(
        Err(ParseError::UnexpectedCharacter { character: 'é', line: 1 }),
        scan("é")
    );
}

#[test]
fn number_literals_keep_their_digits() {
    let tokens = scan("12.50 7 0.25").unwrap();
    assert_eq!(
        Token::new(TokenType::Number("12.50".to_string()), Some("12.50".to_string()), 1),
        tokens[0]
    );
    assert_eq!(TokenType::Number("7".to_string()), tokens[1].token_type);
    assert_eq!(TokenType::Number("0.25".to_string()), tokens[2].token_type);
}

#[test]
fn dots_at_the_edge_of_a_number_stand_alone() {
    assert_eq!(vec![Number, Dot, Eof], kinds("1."));
    assert_eq!(vec![Dot, Number, Eof], kinds(".5"));
    assert_eq!(vec![Number, Dot, Identifier, Eof], kinds("1.x"));
    assert_eq!(vec![Number, Dot, Number, Eof], kinds("1.2.3"));
}

#[test]
fn keywords_carry_no_lexeme_and_identifiers_do() {
    let tokens = scan("var _x1 = nil;").unwrap();
    assert_eq!(Token::new(TokenType::Var, None, 1), tokens[0]);
    assert_eq!(
        Token::new(TokenType::Identifier("_x1".to_string()), Some("_x1".to_string()), 1),
        tokens[1]
    );
    assert_eq!(Token::new(TokenType::Equal, None, 1), tokens[2]);
    assert_eq!(Token::new(TokenType::Nil, None, 1), tokens[3]);
}

#[test]
fn comment_ends_at_the_line_feed() {
    let tokens = scan("a // b c\nd / e").unwrap();
    let kinds: Vec<TokenTypeDiscriminants> = tokens.iter().map(|t| t.kind()).collect();
    assert_eq!(vec![Identifier, Identifier, Slash, Identifier, Eof], kinds);
    assert_eq!(2, tokens[1].line);
}

#[test]
fn scanning_again_adds_one_more_eof() {
    let mut scanner = Scanner::new("a".to_string());
    let first = scanner.scan_tokens().unwrap();
    let second = scanner.scan_tokens().unwrap();
    assert_eq!(2, first.len());
    assert_eq!(3, second.len());
    assert_eq!(TokenType::Eof, second[2].token_type);
}

#[test]
fn reserved_words_are_found_by_their_spelling() {
    assert_eq!(Ok(TokenType::While), TokenType::from_str("while"));
    assert_eq!(Ok(TokenType::Nil), TokenType::from_str("nil"));
    assert_eq!(Err(ParseError::UnknownTokenType), TokenType::from_str("whilst"));
    assert_eq!(Err(ParseError::UnknownTokenType), TokenType::from_str(""));
    assert_eq!(Err(ParseError::UnknownTokenType), TokenType::from_str("While"));
}

#[test]
fn tokens_are_shown_by_lexeme_or_spelling() {
    assert_eq!("<=", Token::new(TokenType::LessEqual, None, 1).to_string());
    assert_eq!("while", Token::new(TokenType::While, None, 1).to_string());
    assert_eq!(
        "abc",
        Token::new(TokenType::Identifier("abc".to_string()), Some("abc".to_string()), 1)
            .to_string()
    );
    assert_eq!(Token::new(TokenType::Star, None, 7), Token::new(TokenType::Star, None, 7).duplicate());
}

#[test]
fn every_token_carries_its_text() {
    let tokens = scan("var a1 = \"\" + \"s\" + 12.5 * (b) or nil;").unwrap();
    for token in tokens {
        match token.token_type.duplicate() {
            TokenType::Identifier(text) | TokenType::Number(text) => {
                assert!(!text.is_empty());
                assert_eq!(Some(text), token.lexeme);
            }
            TokenType::String(text) => assert_eq!(Some(format!("\"{}\"", text)), token.lexeme),
            other => {
                assert_eq!(None, token.lexeme);
                assert_eq!("", other.text());
            }
        }
    }
}

#[test]
fn the_empty_string_has_its_quotes_for_lexeme() {
    let tokens = scan("\"\"").unwrap();
    assert_eq!(
        vec![
            Token::new(TokenType::String(String::new()), Some("\"\"".to_string()), 1),
            Token::new(TokenType::Eof, None, 1),
        ],
        tokens
    );
    assert_eq!("\"\"", tokens[0].to_string());
}

#[test]
fn the_end_of_input_stands_on_the_line_that_the_line_feeds_lead_to() {
    for source in [
        "",
        "\n",
        "a\nb\n\nc",
        "// only a comment\n// and another\n",
        "print \"one\ntwo\nthree\";\n",
        "var a = 1; // trailing\n\"x\n\" + a\n\n\n",
        "\r\n\t \n",
    ] {
        let tokens = Scanner::new(source.to_string()).scan_tokens().unwrap();
        let last = tokens.last().unwrap();
        assert_eq!(1 + source.matches('\n').count(), last.line, "{:?}", source);
    }
}
