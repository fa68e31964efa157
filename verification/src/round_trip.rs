use crate::ast::{expr_shown, ExprView, LiteralView};
use crate::error::ParseError;
use crate::parser::{
    is_operator, kind_at, lemma_primary_moves, lemma_unary_moves, spec_assignment,
    spec_binary, spec_binary_tail, spec_call, spec_call_tail, spec_expression, spec_operand,
    spec_primary, spec_unary, Parsed,
};
use crate::scanner::{
    followed_by, in_class, is_alpha, is_digit, lemma_run_len, lemma_scan_advances, lex, lex_from,
    number_at, number_end, plain, run_len, scan_at, word_at, worded, CharClass, Scan,
};
use crate::token::{keyword, TokenTypeDiscriminants, TokenView};
use vstd::prelude::*;

verus! {

/// Whether `text` can be the text of an identifier: a letter or an
/// underscore, then letters, digits and underscores, and no reserved word.
pub open spec fn is_name_text(text: Seq<char>) -> bool {
    &&& text.len() >= 1
    &&& is_alpha(text[0])
    &&& forall|i: int| 0 <= i < text.len() ==> in_class(CharClass::Word, #[trigger] text[i])
    &&& keyword(text) is None
}

/// Whether `text` can be the text of a number literal: digits, and after
/// them, if anything, a dot and digits.
pub open spec fn is_number_text(text: Seq<char>) -> bool {
    exists|whole: int| #[trigger] has_whole_part(text, whole)
}

/// Whether the first `whole` characters of `text` are the digits before the
/// dot, or all the digits where there is no dot.
pub open spec fn has_whole_part(text: Seq<char>, whole: int) -> bool {
    &&& 1 <= whole <= text.len()
    &&& forall|i: int| 0 <= i < whole ==> is_digit(#[trigger] text[i])
    &&& whole < text.len() ==> {
        &&& text[whole] == '.'
        &&& whole + 1 < text.len()
        &&& forall|i: int| whole < i < text.len() ==> is_digit(#[trigger] text[i])
    }
}

/// Whether the token is an identifier as the scanner makes them.
pub open spec fn is_name(token: TokenView) -> bool {
    &&& token.kind == TokenTypeDiscriminants::Identifier
    &&& token.lexeme == Some(token.text)
    &&& is_name_text(token.text)
}

/// Whether the token is `!` or `-` as the scanner makes them.
pub open spec fn is_prefix_operator(token: TokenView) -> bool {
    &&& token.kind == TokenTypeDiscriminants::Bang || token.kind == TokenTypeDiscriminants::Minus
    &&& token.lexeme is None
    &&& token.text == Seq::<char>::empty()
}

/// The expressions whose prefix form is an expression of the language:
/// `nil`, `true` and `false`, numbers, variables, and the unary operators
/// and the assignments of such. The prefix form of any other expression is
/// either refused or read as something else: `(+ 1 2)` is refused, and a
/// string is written without its quotes.
pub open spec fn reads_back(e: ExprView) -> bool
    decreases e,
{
    match e {
        ExprView::Literal(LiteralView::Nil) => true,
        ExprView::Literal(LiteralView::Boolean(_)) => true,
        ExprView::Literal(LiteralView::Number(digits)) => is_number_text(digits),
        ExprView::Variable(name) => is_name(name),
        ExprView::Unary { operator, right } => is_prefix_operator(operator) && reads_back(*right),
        ExprView::Assign { name, value } => is_name(name) && reads_back(*value),
        _ => false,
    }
}

/// The token on another line.
pub open spec fn token_on_line(token: TokenView, line: int) -> TokenView {
    TokenView { kind: token.kind, text: token.text, lexeme: token.lexeme, line }
}

/// The expression with every token on line `line`.
pub open spec fn on_line(e: ExprView, line: int) -> ExprView
    decreases e,
{
    match e {
        ExprView::Assign { name, value } => ExprView::Assign {
            name: token_on_line(name, line),
            value: Box::new(on_line(*value, line)),
        },
        ExprView::Binary { left, operator, right } => ExprView::Binary {
            left: Box::new(on_line(*left, line)),
            operator: token_on_line(operator, line),
            right: Box::new(on_line(*right, line)),
        },
        ExprView::Call { callee, paren, arguments } => ExprView::Call {
            callee: Box::new(on_line(*callee, line)),
            paren: token_on_line(paren, line),
            arguments: Seq::new(
                arguments.len(),
                |i: int|
                    if 0 <= i < arguments.len() {
                        on_line(arguments[i], line)
                    } else {
                        ExprView::Literal(LiteralView::Nil)
                    },
            ),
        },
        ExprView::Grouping { grouping } => ExprView::Grouping {
            grouping: Box::new(on_line(*grouping, line)),
        },
        ExprView::Literal(l) => ExprView::Literal(l),
        ExprView::Logical { left, operator, right } => ExprView::Logical {
            left: Box::new(on_line(*left, line)),
            operator: token_on_line(operator, line),
            right: Box::new(on_line(*right, line)),
        },
        ExprView::Unary { operator, right } => ExprView::Unary {
            operator: token_on_line(operator, line),
            right: Box::new(on_line(*right, line)),
        },
        ExprView::Variable(name) => ExprView::Variable(token_on_line(name, line)),
    }
}

/// The expression without its parentheses.
pub open spec fn without_grouping(e: ExprView) -> ExprView
    decreases e,
{
    match e {
        ExprView::Assign { name, value } => ExprView::Assign {
            name,
            value: Box::new(without_grouping(*value)),
        },
        ExprView::Binary { left, operator, right } => ExprView::Binary {
            left: Box::new(without_grouping(*left)),
            operator,
            right: Box::new(without_grouping(*right)),
        },
        ExprView::Call { callee, paren, arguments } => ExprView::Call {
            callee: Box::new(without_grouping(*callee)),
            paren,
            arguments: Seq::new(
                arguments.len(),
                |i: int|
                    if 0 <= i < arguments.len() {
                        without_grouping(arguments[i])
                    } else {
                        ExprView::Literal(LiteralView::Nil)
                    },
            ),
        },
        ExprView::Grouping { grouping } => without_grouping(*grouping),
        ExprView::Literal(l) => ExprView::Literal(l),
        ExprView::Logical { left, operator, right } => ExprView::Logical {
            left: Box::new(without_grouping(*left)),
            operator,
            right: Box::new(without_grouping(*right)),
        },
        ExprView::Unary { operator, right } => ExprView::Unary {
            operator,
            right: Box::new(without_grouping(*right)),
        },
        ExprView::Variable(name) => ExprView::Variable(name),
    }
}

/// The tokens of the prefix form of an expression that reads back, all on
/// line `line`.
pub open spec fn prefix_tokens(e: ExprView, line: int) -> Seq<TokenView>
    decreases e,
{
    match e {
        ExprView::Literal(LiteralView::Nil) => seq![plain(TokenTypeDiscriminants::Nil, line)],
        ExprView::Literal(LiteralView::Boolean(b)) => seq![
            plain(
                if b {
                    TokenTypeDiscriminants::True
                } else {
                    TokenTypeDiscriminants::False
                },
                line,
            ),
        ],
        ExprView::Literal(LiteralView::Number(digits)) => seq![
            worded(TokenTypeDiscriminants::Number, digits, line),
        ],
        ExprView::Variable(name) => seq![worded(TokenTypeDiscriminants::Identifier, name.text, line)],
        ExprView::Unary { operator, right } => seq![
            plain(TokenTypeDiscriminants::LeftParen, line),
            plain(operator.kind, line),
        ] + prefix_tokens(*right, line) + seq![plain(TokenTypeDiscriminants::RightParen, line)],
        ExprView::Assign { name, value } => seq![
            plain(TokenTypeDiscriminants::LeftParen, line),
            worded(TokenTypeDiscriminants::Identifier, name.text, line),
            plain(TokenTypeDiscriminants::Equal, line),
        ] + prefix_tokens(*value, line) + seq![plain(TokenTypeDiscriminants::RightParen, line)],
        _ => Seq::empty(),
    }
}

/// What the prefix form of an expression that reads back is read as: the
/// expression on line `line`, with parentheses around every operator.
pub open spec fn read_back(e: ExprView, line: int) -> ExprView
    decreases e,
{
    match e {
        ExprView::Unary { operator, right } => ExprView::Grouping {
            grouping: Box::new(
                ExprView::Unary {
                    operator: token_on_line(operator, line),
                    right: Box::new(read_back(*right, line)),
                },
            ),
        },
        ExprView::Assign { name, value } => ExprView::Grouping {
            grouping: Box::new(
                ExprView::Assign {
                    name: token_on_line(name, line),
                    value: Box::new(read_back(*value, line)),
                },
            ),
        },
        ExprView::Variable(name) => ExprView::Variable(token_on_line(name, line)),
        other => other,
    }
}

/// What is read back is the expression, up to parentheses and lines.
pub proof fn lemma_read_back_is_the_expression(e: ExprView, line: int)
    requires
        reads_back(e),
    ensures
        without_grouping(read_back(e, line)) == on_line(e, line),
    decreases e,
{
    reveal_with_fuel(without_grouping, 3);
    match e {
        ExprView::Unary { operator, right } => {
            lemma_read_back_is_the_expression(*right, line);
        },
        ExprView::Assign { name, value } => {
            lemma_read_back_is_the_expression(*value, line);
        },
        _ => {},
    }
}

/// Whether the kind is that of a `)` or of the end of input.
pub open spec fn ends_an_expression(kind: TokenTypeDiscriminants) -> bool {
    kind == TokenTypeDiscriminants::RightParen || kind == TokenTypeDiscriminants::Eof
}

/// Whether no binary operator is of this kind.
pub open spec fn is_no_operator(kind: TokenTypeDiscriminants) -> bool {
    forall|level: int| 0 <= level <= 5 ==> !#[trigger] is_operator(level, kind)
}

/// A primary expression that no `(` follows is a call without arguments,
/// and a unary expression without operator.
pub proof fn lemma_primary_is_unary(tokens: Seq<TokenView>, pos: int, node: ExprView, next: int)
    requires
        0 <= pos <= tokens.len(),
        spec_primary(tokens, pos) == (Parsed::Done { node, next }),
        kind_at(tokens, next) != TokenTypeDiscriminants::LeftParen,
    ensures
        spec_unary(tokens, pos) == (Parsed::Done { node, next }),
{
    reveal(spec_primary);
    reveal(spec_call);
    reveal(spec_call_tail);
    reveal(spec_unary);
    lemma_primary_moves(tokens, pos);
    assert(spec_call_tail(tokens, node, next) == (Parsed::Done { node, next }));
    assert(spec_call(tokens, pos) == (Parsed::Done { node, next }));
    assert(kind_at(tokens, pos) != TokenTypeDiscriminants::Bang);
    assert(kind_at(tokens, pos) != TokenTypeDiscriminants::Minus);
}

/// A unary expression that no binary operator follows is a binary
/// expression of every level without operator.
pub proof fn lemma_unary_is_binary(
    level: int,
    tokens: Seq<TokenView>,
    pos: int,
    node: ExprView,
    next: int,
)
    requires
        0 <= level <= 5,
        0 <= pos <= tokens.len(),
        spec_unary(tokens, pos) == (Parsed::Done { node, next }),
        is_no_operator(kind_at(tokens, next)),
    ensures
        spec_binary(level, tokens, pos) == (Parsed::Done { node, next }),
    decreases 5 - level,
{
    reveal(spec_binary);
    reveal(spec_operand);
    reveal(spec_binary_tail);
    reveal(spec_unary);
    lemma_unary_moves(tokens, pos);
    if level < 5 {
        lemma_unary_is_binary(level + 1, tokens, pos, node, next);
    }
    assert(!is_operator(level, kind_at(tokens, next)));
}

/// A binary expression that no `=` follows is an expression.
pub proof fn lemma_binary_is_expression(
    tokens: Seq<TokenView>,
    pos: int,
    node: ExprView,
    next: int,
)
    requires
        spec_binary(0, tokens, pos) == (Parsed::Done { node, next }),
        kind_at(tokens, next) != TokenTypeDiscriminants::Equal,
    ensures
        spec_expression(tokens, pos) == (Parsed::Done { node, next }),
{
    reveal(spec_expression);
    reveal(spec_assignment);
    reveal(spec_binary);
}

/// A primary expression that ends at a `)` or at the end of input is an
/// expression.
pub proof fn lemma_primary_is_expression(
    tokens: Seq<TokenView>,
    pos: int,
    node: ExprView,
    next: int,
)
    requires
        0 <= pos <= tokens.len(),
        spec_primary(tokens, pos) == (Parsed::Done { node, next }),
        ends_an_expression(kind_at(tokens, next)),
    ensures
        spec_unary(tokens, pos) == (Parsed::Done { node, next }),
        spec_expression(tokens, pos) == (Parsed::Done { node, next }),
{
    lemma_primary_is_unary(tokens, pos, node, next);
    assert(is_no_operator(kind_at(tokens, next)));
    lemma_unary_is_binary(0, tokens, pos, node, next);
    lemma_binary_is_expression(tokens, pos, node, next);
}

/// The tokens of a prefix form are read as a primary expression: the one
/// that [`read_back`] gives.
pub proof fn lemma_prefix_tokens_parse(e: ExprView, line: int, tokens: Seq<TokenView>, pos: int)
    requires
        reads_back(e),
        0 <= pos,
        pos + prefix_tokens(e, line).len() <= tokens.len(),
        tokens.subrange(pos, pos + prefix_tokens(e, line).len()) == prefix_tokens(e, line),
        ends_an_expression(kind_at(tokens, pos + prefix_tokens(e, line).len())),
    ensures
        spec_primary(tokens, pos) == (Parsed::Done {
            node: read_back(e, line),
            next: pos + prefix_tokens(e, line).len(),
        }),
    decreases e,
{
    reveal(spec_primary);
    reveal(spec_expression);
    let own = prefix_tokens(e, line);
    let n = own.len() as int;
    assert forall|i: int| 0 <= i < n implies tokens[pos + i] == own[i] by {
        assert(tokens.subrange(pos, pos + n)[i] == tokens[pos + i]);
    }
    match e {
        ExprView::Unary { operator, right } => {
            let inner = prefix_tokens(*right, line);
            let k = inner.len() as int;
            assert(n == k + 3);
            assert(tokens[pos] == own[0]);
            assert(tokens[pos + 1] == own[1]);
            assert(tokens[pos + 2 + k] == own[2 + k]);
            assert(tokens.subrange(pos + 2, pos + 2 + k) =~= inner) by {
                assert forall|i: int| 0 <= i < k implies tokens[pos + 2 + i] == inner[i] by {
                    assert(tokens[pos + (2 + i)] == own[2 + i]);
                }
            }
            lemma_prefix_tokens_parse(*right, line, tokens, pos + 2);
            lemma_primary_is_unary(tokens, pos + 2, read_back(*right, line), pos + 2 + k);
            reveal(spec_unary);
            assert(tokens[pos + 1] == token_on_line(operator, line));
            let node = ExprView::Unary {
                operator: token_on_line(operator, line),
                right: Box::new(read_back(*right, line)),
            };
            assert(spec_unary(tokens, pos + 1) == (Parsed::Done { node, next: pos + 2 + k }));
            assert(is_no_operator(kind_at(tokens, pos + 2 + k)));
            lemma_unary_is_binary(0, tokens, pos + 1, node, pos + 2 + k);
            lemma_binary_is_expression(tokens, pos + 1, node, pos + 2 + k);
            assert(kind_at(tokens, pos) == TokenTypeDiscriminants::LeftParen);
            assert(spec_expression(tokens, pos + 1) == (Parsed::Done { node, next: pos + 2 + k }));
            assert(kind_at(tokens, pos + 2 + k) == TokenTypeDiscriminants::RightParen);
            assert(read_back(e, line) == (ExprView::Grouping { grouping: Box::new(node) }));
        },
        ExprView::Assign { name, value } => {
            let inner = prefix_tokens(*value, line);
            let k = inner.len() as int;
            assert(n == k + 4);
            assert(tokens[pos] == own[0]);
            assert(tokens[pos + 1] == own[1]);
            assert(tokens[pos + 2] == own[2]);
            assert(tokens[pos + 3 + k] == own[3 + k]);
            assert(tokens.subrange(pos + 3, pos + 3 + k) =~= inner) by {
                assert forall|i: int| 0 <= i < k implies tokens[pos + 3 + i] == inner[i] by {
                    assert(tokens[pos + (3 + i)] == own[3 + i]);
                }
            }
            lemma_prefix_tokens_parse(*value, line, tokens, pos + 3);
            lemma_primary_is_expression(
                tokens,
                pos + 3,
                read_back(*value, line),
                pos + 3 + k,
            );
            assert(tokens[pos + 1] == token_on_line(name, line));
            let target = ExprView::Variable(token_on_line(name, line));
            assert(spec_primary(tokens, pos + 1) == (Parsed::Done { node: target, next: pos + 2 }));
            lemma_primary_is_unary(tokens, pos + 1, target, pos + 2);
            assert(is_no_operator(kind_at(tokens, pos + 2)));
            lemma_unary_is_binary(0, tokens, pos + 1, target, pos + 2);
            reveal(spec_expression);
            reveal(spec_assignment);
            reveal(spec_binary);
            let node = ExprView::Assign {
                name: token_on_line(name, line),
                value: Box::new(read_back(*value, line)),
            };
            assert(spec_binary(0, tokens, pos + 1) == (Parsed::Done { node: target, next: pos + 2 }));
            assert(kind_at(tokens, pos + 2) == TokenTypeDiscriminants::Equal);
            assert(spec_assignment(tokens, pos + 3) == (Parsed::Done {
                node: read_back(*value, line),
                next: pos + 3 + k,
            }));
            assert(spec_assignment(tokens, pos + 1) == (Parsed::Done { node, next: pos + 3 + k }));
            assert(spec_expression(tokens, pos + 1) == (Parsed::Done { node, next: pos + 3 + k }));
            assert(kind_at(tokens, pos) == TokenTypeDiscriminants::LeftParen);
            assert(kind_at(tokens, pos + 3 + k) == TokenTypeDiscriminants::RightParen);
            assert(read_back(e, line) == (ExprView::Grouping { grouping: Box::new(node) }));
        },
        _ => {
            assert(n == 1);
            assert(tokens[pos] == own[0]);
        },
    }
}

/// Whether a word or a number that ends before offset `i` of `s` ends
/// there: at the end of the text, or before a character that is no letter,
/// no digit, no underscore and no dot.
pub open spec fn closed_at(s: Seq<char>, i: int) -> bool {
    i >= s.len() || (!in_class(CharClass::Word, s[i]) && s[i] != '.')
}

/// Whether the scanner, from offset `pos` of `s` on, reads `tokens` and then
/// what it reads from offset `end` on.
#[verifier::opaque]
pub open spec fn lexes_as(
    s: Seq<char>,
    pos: int,
    line: int,
    tokens: Seq<TokenView>,
    end: int,
) -> bool {
    lex_from(s, pos, line) == followed_by(tokens, lex_from(s, end, line))
}

/// `nil`, `true` and `false` are reserved words.
pub proof fn lemma_literal_keywords()
    ensures
        keyword("nil"@) == Some(TokenTypeDiscriminants::Nil),
        keyword("true"@) == Some(TokenTypeDiscriminants::True),
        keyword("false"@) == Some(TokenTypeDiscriminants::False),
{
    reveal_strlit("and");
    reveal_strlit("class");
    reveal_strlit("else");
    reveal_strlit("false");
    reveal_strlit("fun");
    reveal_strlit("for");
    reveal_strlit("if");
    reveal_strlit("nil");
    reveal_strlit("or");
    reveal_strlit("print");
    reveal_strlit("return");
    reveal_strlit("super");
    reveal_strlit("this");
    reveal_strlit("true");
    assert("nil"@[0] != "and"@[0]);
    assert("nil"@[0] != "fun"@[0]);
    assert("nil"@[0] != "for"@[0]);
    assert("true"@[0] != "else"@[0]);
    assert("true"@[1] != "this"@[1]);
    assert("false"@[0] != "class"@[0]);
}

/// The scanner reads one token and goes on.
pub proof fn lemma_lex_token(s: Seq<char>, pos: int, line: int, token: TokenView, next: int)
    requires
        0 <= pos < s.len(),
        scan_at(s, pos, line) == (Scan::Token { token, next, line }),
    ensures
        pos < next <= s.len(),
        lex_from(s, pos, line) == followed_by(seq![token], lex_from(s, next, line)),
{
    lemma_scan_advances(s, pos, line);
}

/// Reading two runs of tokens, one after the other, is reading the runs
/// joined.
pub proof fn lemma_followed_twice(
    first: Seq<TokenView>,
    second: Seq<TokenView>,
    rest: Result<Seq<TokenView>, ParseError>,
)
    ensures
        followed_by(first, followed_by(second, rest)) == followed_by(first + second, rest),
{
    match rest {
        Ok(more) => {
            assert(first + (second + more) =~= (first + second) + more);
        },
        Err(error) => {},
    }
}

/// A word that ends where it is closed is read whole.
pub proof fn lemma_scan_word(s: Seq<char>, pos: int, line: int, n: int)
    requires
        0 <= pos,
        1 <= n,
        pos + n <= s.len(),
        is_alpha(s[pos]),
        forall|i: int| pos <= i < pos + n ==> in_class(CharClass::Word, #[trigger] s[i]),
        closed_at(s, pos + n),
    ensures
        scan_at(s, pos, line) == word_at(s, pos, line),
        pos + 1 + run_len(s, pos + 1, CharClass::Word) == pos + n,
{
    lemma_run_len(s, pos + 1, pos + n, CharClass::Word);
}

/// A number that ends where it is closed is read whole.
pub proof fn lemma_scan_number(s: Seq<char>, pos: int, line: int, n: int)
    requires
        0 <= pos,
        0 <= n,
        pos + n <= s.len(),
        is_number_text(s.subrange(pos, pos + n)),
        closed_at(s, pos + n),
    ensures
        n >= 1,
        scan_at(s, pos, line) == (Scan::Token {
            token: worded(TokenTypeDiscriminants::Number, s.subrange(pos, pos + n), line),
            next: pos + n,
            line,
        }),
{
    let text = s.subrange(pos, pos + n);
    assert(text.len() == n);
    let whole = choose|whole: int| #[trigger] has_whole_part(text, whole);
    assert(has_whole_part(text, whole));
    assert forall|i: int| pos <= i < pos + whole implies is_digit(#[trigger] s[i]) by {
        assert(text[i - pos] == s[i]);
    }
    assert(is_digit(s[pos]));
    if whole < n {
        assert(text[whole] == s[pos + whole]);
    }
    lemma_run_len(s, pos + 1, pos + whole, CharClass::Digit);
    let dot = pos + 1 + run_len(s, pos + 1, CharClass::Digit);
    assert(dot == pos + whole);
    if whole < n {
        assert(text[whole + 1] == s[pos + whole + 1]);
        assert(is_digit(text[whole + 1]));
        assert forall|i: int| dot + 2 <= i < pos + n implies in_class(
            CharClass::Digit,
            #[trigger] s[i],
        ) by {
            assert(text[i - pos] == s[i]);
        }
        lemma_run_len(s, dot + 2, pos + n, CharClass::Digit);
    }
    assert(number_end(s, pos) == pos + n);
    assert(scan_at(s, pos, line) == number_at(s, pos, line));
}

/// A number literal as it is printed is scanned into its token.
pub proof fn lemma_number_lexes(s: Seq<char>, pos: int, line: int, digits: Seq<char>)
    requires
        0 <= pos,
        pos + digits.len() <= s.len(),
        s.subrange(pos, pos + digits.len()) == digits,
        is_number_text(digits),
        closed_at(s, pos + digits.len()),
    ensures
        digits.len() >= 1,
        lexes_as(
            s,
            pos,
            line,
            seq![worded(TokenTypeDiscriminants::Number, digits, line)],
            pos + digits.len(),
        ),
{
    reveal(lexes_as);
    lemma_scan_number(s, pos, line, digits.len() as int);
    lemma_lex_token(
        s,
        pos,
        line,
        worded(TokenTypeDiscriminants::Number, digits, line),
        pos + digits.len(),
    );
}

/// A word as it is printed is scanned into its token: that of a reserved
/// word, or an identifier.
pub proof fn lemma_word_lexes(s: Seq<char>, pos: int, line: int, word: Seq<char>)
    requires
        0 <= pos,
        pos + word.len() <= s.len(),
        s.subrange(pos, pos + word.len()) == word,
        word.len() >= 1,
        is_alpha(word[0]),
        forall|i: int| 0 <= i < word.len() ==> in_class(CharClass::Word, #[trigger] word[i]),
        closed_at(s, pos + word.len()),
    ensures
        lexes_as(
            s,
            pos,
            line,
            seq![
                match keyword(word) {
                    Some(kind) => plain(kind, line),
                    None => worded(TokenTypeDiscriminants::Identifier, word, line),
                },
            ],
            pos + word.len(),
        ),
{
    reveal(lexes_as);
    let n = word.len() as int;
    assert forall|i: int| pos <= i < pos + n implies in_class(CharClass::Word, #[trigger] s[i]) by {
        assert(s.subrange(pos, pos + n)[i - pos] == s[i]);
    }
    assert(s.subrange(pos, pos + n)[0] == s[pos]);
    lemma_scan_word(s, pos, line, n);
    let token = match keyword(word) {
        Some(kind) => plain(kind, line),
        None => worded(TokenTypeDiscriminants::Identifier, word, line),
    };
    lemma_lex_token(s, pos, line, token, pos + n);
}

/// `(`, `!` or `-`, a space, what follows, and `)` are scanned into `(`, the
/// operator, the tokens of what follows, and `)`.
pub proof fn lemma_unary_lexes(
    s: Seq<char>,
    pos: int,
    line: int,
    kind: TokenTypeDiscriminants,
    m: int,
    inner: Seq<TokenView>,
)
    requires
        0 <= pos,
        0 <= m,
        pos + m + 4 <= s.len(),
        s[pos] == '(',
        (kind == TokenTypeDiscriminants::Bang && s[pos + 1] == '!') || (kind
            == TokenTypeDiscriminants::Minus && s[pos + 1] == '-'),
        s[pos + 2] == ' ',
        s[pos + 3 + m] == ')',
        lexes_as(s, pos + 3, line, inner, pos + 3 + m),
    ensures
        lexes_as(
            s,
            pos,
            line,
            seq![plain(TokenTypeDiscriminants::LeftParen, line), plain(kind, line)] + inner
                + seq![plain(TokenTypeDiscriminants::RightParen, line)],
            pos + m + 4,
        ),
{
    reveal(lexes_as);
    let open = plain(TokenTypeDiscriminants::LeftParen, line);
    let sign = plain(kind, line);
    let close = plain(TokenTypeDiscriminants::RightParen, line);
    lemma_lex_token(s, pos, line, open, pos + 1);
    lemma_lex_token(s, pos + 1, line, sign, pos + 2);
    lemma_scan_advances(s, pos + 2, line);
    assert(lex_from(s, pos + 2, line) == lex_from(s, pos + 3, line));
    lemma_lex_token(s, pos + 3 + m, line, close, pos + 4 + m);
    let rest = lex_from(s, pos + m + 4, line);
    lemma_followed_twice(inner, seq![close], rest);
    lemma_followed_twice(seq![sign], inner + seq![close], rest);
    lemma_followed_twice(seq![open], seq![sign] + (inner + seq![close]), rest);
    assert(seq![open] + (seq![sign] + (inner + seq![close])) =~= seq![open, sign] + inner
        + seq![close]);
}

/// `(`, a name, ` = `, what follows, and `)` are scanned into `(`, the
/// identifier, `=`, the tokens of what follows, and `)`.
pub proof fn lemma_assign_lexes(
    s: Seq<char>,
    pos: int,
    line: int,
    name: Seq<char>,
    m: int,
    inner: Seq<TokenView>,
)
    requires
        0 <= pos,
        0 <= m,
        is_name_text(name),
        pos + name.len() + m + 5 <= s.len(),
        s[pos] == '(',
        s.subrange(pos + 1, pos + 1 + name.len()) == name,
        s[pos + 1 + name.len()] == ' ',
        s[pos + 2 + name.len()] == '=',
        s[pos + 3 + name.len()] == ' ',
        s[pos + 4 + name.len() + m] == ')',
        lexes_as(s, pos + 4 + name.len(), line, inner, pos + 4 + name.len() + m),
    ensures
        lexes_as(
            s,
            pos,
            line,
            seq![
                plain(TokenTypeDiscriminants::LeftParen, line),
                worded(TokenTypeDiscriminants::Identifier, name, line),
                plain(TokenTypeDiscriminants::Equal, line),
            ] + inner + seq![plain(TokenTypeDiscriminants::RightParen, line)],
            pos + name.len() + m + 5,
        ),
{
    reveal(lexes_as);
    let w = name.len() as int;
    let open = plain(TokenTypeDiscriminants::LeftParen, line);
    let target = worded(TokenTypeDiscriminants::Identifier, name, line);
    let equal = plain(TokenTypeDiscriminants::Equal, line);
    let close = plain(TokenTypeDiscriminants::RightParen, line);
    lemma_lex_token(s, pos, line, open, pos + 1);
    lemma_word_lexes(s, pos + 1, line, name);
    lemma_scan_advances(s, pos + 1 + w, line);
    assert(lex_from(s, pos + 1 + w, line) == lex_from(s, pos + 2 + w, line));
    lemma_lex_token(s, pos + 2 + w, line, equal, pos + 3 + w);
    lemma_scan_advances(s, pos + 3 + w, line);
    assert(lex_from(s, pos + 3 + w, line) == lex_from(s, pos + 4 + w, line));
    lemma_lex_token(s, pos + 4 + w + m, line, close, pos + 5 + w + m);
    let rest = lex_from(s, pos + w + m + 5, line);
    lemma_followed_twice(inner, seq![close], rest);
    lemma_followed_twice(seq![equal], inner + seq![close], rest);
    lemma_followed_twice(seq![target], seq![equal] + (inner + seq![close]), rest);
    lemma_followed_twice(seq![open], seq![target] + (seq![equal] + (inner + seq![close])), rest);
    assert(seq![open] + (seq![target] + (seq![equal] + (inner + seq![close]))) =~= seq![
        open,
        target,
        equal,
    ] + inner + seq![close]);
}

/// How the prefix form of a unary operator is made up.
pub proof fn lemma_unary_shown(operator: TokenView, right: ExprView)
    requires
        is_prefix_operator(operator),
    ensures
        ({
            let shown = expr_shown(ExprView::Unary { operator, right: Box::new(right) });
            let m = expr_shown(right).len() as int;
            &&& shown.len() == m + 4
            &&& shown[0] == '('
            &&& operator.kind == TokenTypeDiscriminants::Bang ==> shown[1] == '!'
            &&& operator.kind == TokenTypeDiscriminants::Minus ==> shown[1] == '-'
            &&& shown[2] == ' '
            &&& shown[3 + m] == ')'
            &&& shown.subrange(3, 3 + m) == expr_shown(right)
        }),
{
    reveal(expr_shown);
    reveal_strlit("(");
    reveal_strlit(")");
    reveal_strlit(" ");
    reveal_strlit("!");
    reveal_strlit("-");
    let shown = expr_shown(ExprView::Unary { operator, right: Box::new(right) });
    let m = expr_shown(right).len() as int;
    assert(shown =~= "("@ + operator.shown() + " "@ + expr_shown(right) + ")"@);
    assert(shown.subrange(3, 3 + m) =~= expr_shown(right));
}

/// How the prefix form of an assignment is made up.
pub proof fn lemma_assign_shown(name: TokenView, value: ExprView)
    requires
        is_name(name),
    ensures
        ({
            let shown = expr_shown(ExprView::Assign { name, value: Box::new(value) });
            let m = expr_shown(value).len() as int;
            let w = name.text.len() as int;
            &&& shown.len() == w + m + 5
            &&& shown[0] == '('
            &&& shown.subrange(1, 1 + w) == name.text
            &&& shown[1 + w] == ' '
            &&& shown[2 + w] == '='
            &&& shown[3 + w] == ' '
            &&& shown[4 + w + m] == ')'
            &&& shown.subrange(4 + w, 4 + w + m) == expr_shown(value)
        }),
{
    reveal(expr_shown);
    reveal_strlit("(");
    reveal_strlit(")");
    reveal_strlit(" = ");
    let shown = expr_shown(ExprView::Assign { name, value: Box::new(value) });
    let m = expr_shown(value).len() as int;
    let w = name.text.len() as int;
    assert(shown =~= "("@ + name.text + " = "@ + expr_shown(value) + ")"@);
    assert(shown.subrange(1, 1 + w) =~= name.text);
    assert(shown.subrange(4 + w, 4 + w + m) =~= expr_shown(value));
}

/// What stands in a part of a text stands in the text.
pub proof fn lemma_part_of_part(s: Seq<char>, pos: int, n: int, from: int, to: int)
    requires
        0 <= pos,
        0 <= from <= to <= n,
        pos + n <= s.len(),
    ensures
        s.subrange(pos, pos + n).subrange(from, to) == s.subrange(pos + from, pos + to),
        forall|i: int| 0 <= i < n ==> #[trigger] s.subrange(pos, pos + n)[i] == s[pos + i],
{
    assert(s.subrange(pos, pos + n).subrange(from, to) =~= s.subrange(pos + from, pos + to));
}

/// The prefix form of a literal and of a variable is the literal and the
/// name.
pub proof fn lemma_atom_shown(e: ExprView)
    ensures
        e matches ExprView::Literal(literal) ==> expr_shown(e) == literal.shown(),
        e matches ExprView::Variable(name) ==> expr_shown(e) == name.shown(),
{
    reveal(expr_shown);
}

/// `nil`, `true` and `false` as they are printed are scanned into their
/// tokens.
pub proof fn lemma_literal_lexes(literal: LiteralView, s: Seq<char>, pos: int, line: int)
    requires
        literal is Nil || literal is Boolean,
        0 <= pos,
        pos + literal.shown().len() <= s.len(),
        s.subrange(pos, pos + literal.shown().len()) == literal.shown(),
        closed_at(s, pos + literal.shown().len()),
    ensures
        literal.shown().len() >= 1,
        lexes_as(
            s,
            pos,
            line,
            prefix_tokens(ExprView::Literal(literal), line),
            pos + literal.shown().len(),
        ),
{
    reveal_strlit("nil");
    reveal_strlit("true");
    reveal_strlit("false");
    lemma_literal_keywords();
    lemma_word_lexes(s, pos, line, literal.shown());
}

/// A variable as it is printed is scanned into its identifier.
pub proof fn lemma_variable_lexes(name: TokenView, s: Seq<char>, pos: int, line: int)
    requires
        is_name(name),
        0 <= pos,
        pos + name.text.len() <= s.len(),
        s.subrange(pos, pos + name.text.len()) == name.text,
        closed_at(s, pos + name.text.len()),
    ensures
        name.text.len() >= 1,
        lexes_as(
            s,
            pos,
            line,
            prefix_tokens(ExprView::Variable(name), line),
            pos + name.text.len(),
        ),
{
    lemma_word_lexes(s, pos, line, name.text);
}

/// The prefix form of a unary operator is scanned into its tokens, where
/// the prefix form of its operand is.
pub proof fn lemma_unary_form_lexes(
    operator: TokenView,
    right: ExprView,
    s: Seq<char>,
    pos: int,
    line: int,
)
    requires
        is_prefix_operator(operator),
        0 <= pos,
        pos + expr_shown(ExprView::Unary { operator, right: Box::new(right) }).len() <= s.len(),
        s.subrange(
            pos,
            pos + expr_shown(ExprView::Unary { operator, right: Box::new(right) }).len(),
        ) == expr_shown(ExprView::Unary { operator, right: Box::new(right) }),
        lexes_as(s, pos + 3, line, prefix_tokens(right, line), pos + 3 + expr_shown(right).len()),
    ensures
        lexes_as(
            s,
            pos,
            line,
            prefix_tokens(ExprView::Unary { operator, right: Box::new(right) }, line),
            pos + expr_shown(ExprView::Unary { operator, right: Box::new(right) }).len(),
        ),
{
    let e = ExprView::Unary { operator, right: Box::new(right) };
    let shown = expr_shown(e);
    let n = shown.len() as int;
    let m = expr_shown(right).len() as int;
    lemma_unary_shown(operator, right);
    lemma_part_of_part(s, pos, n, 3, 3 + m);
    assert(s[pos] == shown[0]);
    assert(s[pos + 1] == shown[1]);
    assert(s[pos + 2] == shown[2]);
    assert(s[pos + 3 + m] == shown[3 + m]);
    lemma_unary_lexes(s, pos, line, operator.kind, m, prefix_tokens(right, line));
}

/// The prefix form of an assignment is scanned into its tokens, where the
/// prefix form of its value is.
pub proof fn lemma_assign_form_lexes(
    name: TokenView,
    value: ExprView,
    s: Seq<char>,
    pos: int,
    line: int,
)
    requires
        is_name(name),
        0 <= pos,
        pos + expr_shown(ExprView::Assign { name, value: Box::new(value) }).len() <= s.len(),
        s.subrange(
            pos,
            pos + expr_shown(ExprView::Assign { name, value: Box::new(value) }).len(),
        ) == expr_shown(ExprView::Assign { name, value: Box::new(value) }),
        lexes_as(
            s,
            pos + 4 + name.text.len(),
            line,
            prefix_tokens(value, line),
            pos + 4 + name.text.len() + expr_shown(value).len(),
        ),
    ensures
        lexes_as(
            s,
            pos,
            line,
            prefix_tokens(ExprView::Assign { name, value: Box::new(value) }, line),
            pos + expr_shown(ExprView::Assign { name, value: Box::new(value) }).len(),
        ),
{
    let e = ExprView::Assign { name, value: Box::new(value) };
    let shown = expr_shown(e);
    let n = shown.len() as int;
    let m = expr_shown(value).len() as int;
    let w = name.text.len() as int;
    lemma_assign_shown(name, value);
    lemma_part_of_part(s, pos, n, 1, 1 + w);
    lemma_part_of_part(s, pos, n, 4 + w, 4 + w + m);
    assert(s[pos] == shown[0]);
    assert(s[pos + 1 + w] == shown[1 + w]);
    assert(s[pos + 2 + w] == shown[2 + w]);
    assert(s[pos + 3 + w] == shown[3 + w]);
    assert(s[pos + 4 + w + m] == shown[4 + w + m]);
    lemma_assign_lexes(s, pos, line, name.text, m, prefix_tokens(value, line));
}

/// Where the prefix form of the operand stands in the prefix form of a
/// unary operator.
pub proof fn lemma_unary_inner(operator: TokenView, right: ExprView, s: Seq<char>, pos: int)
    requires
        is_prefix_operator(operator),
        0 <= pos,
        pos + expr_shown(ExprView::Unary { operator, right: Box::new(right) }).len() <= s.len(),
        s.subrange(
            pos,
            pos + expr_shown(ExprView::Unary { operator, right: Box::new(right) }).len(),
        ) == expr_shown(ExprView::Unary { operator, right: Box::new(right) }),
    ensures
        expr_shown(ExprView::Unary { operator, right: Box::new(right) }).len() == expr_shown(
            right,
        ).len() + 4,
        s.subrange(pos + 3, pos + 3 + expr_shown(right).len()) == expr_shown(right),
        s[pos + 3 + expr_shown(right).len()] == ')',
{
    let shown = expr_shown(ExprView::Unary { operator, right: Box::new(right) });
    let m = expr_shown(right).len() as int;
    lemma_unary_shown(operator, right);
    lemma_part_of_part(s, pos, shown.len() as int, 3, 3 + m);
    assert(s[pos + 3 + m] == shown[3 + m]);
}

/// Where the prefix form of the value stands in the prefix form of an
/// assignment.
pub proof fn lemma_assign_inner(name: TokenView, value: ExprView, s: Seq<char>, pos: int)
    requires
        is_name(name),
        0 <= pos,
        pos + expr_shown(ExprView::Assign { name, value: Box::new(value) }).len() <= s.len(),
        s.subrange(
            pos,
            pos + expr_shown(ExprView::Assign { name, value: Box::new(value) }).len(),
        ) == expr_shown(ExprView::Assign { name, value: Box::new(value) }),
    ensures
        expr_shown(ExprView::Assign { name, value: Box::new(value) }).len() == expr_shown(
            value,
        ).len() + name.text.len() + 5,
        s.subrange(
            pos + 4 + name.text.len(),
            pos + 4 + name.text.len() + expr_shown(value).len(),
        ) == expr_shown(value),
        s[pos + 4 + name.text.len() + expr_shown(value).len()] == ')',
{
    let shown = expr_shown(ExprView::Assign { name, value: Box::new(value) });
    let m = expr_shown(value).len() as int;
    let w = name.text.len() as int;
    lemma_assign_shown(name, value);
    lemma_part_of_part(s, pos, shown.len() as int, 4 + w, 4 + w + m);
    assert(s[pos + 4 + w + m] == shown[4 + w + m]);
}

/// The prefix form of an expression that reads back is scanned into the
/// tokens that [`prefix_tokens`] gives.
pub proof fn lemma_prefix_form_lexes(e: ExprView, s: Seq<char>, pos: int, line: int)
    requires
        reads_back(e),
        0 <= pos,
        pos + expr_shown(e).len() <= s.len(),
        s.subrange(pos, pos + expr_shown(e).len()) == expr_shown(e),
        closed_at(s, pos + expr_shown(e).len()),
    ensures
        expr_shown(e).len() >= 1,
        lexes_as(s, pos, line, prefix_tokens(e, line), pos + expr_shown(e).len()),
    decreases e,
{
    lemma_atom_shown(e);
    match e {
        ExprView::Literal(LiteralView::Number(digits)) => {
            lemma_number_lexes(s, pos, line, digits);
        },
        ExprView::Literal(literal) => {
            lemma_literal_lexes(literal, s, pos, line);
        },
        ExprView::Variable(name) => {
            lemma_variable_lexes(name, s, pos, line);
        },
        ExprView::Unary { operator, right } => {
            lemma_unary_inner(operator, *right, s, pos);
            lemma_prefix_form_lexes(*right, s, pos + 3, line);
            lemma_unary_form_lexes(operator, *right, s, pos, line);
        },
        ExprView::Assign { name, value } => {
            lemma_assign_inner(name, *value, s, pos);
            lemma_prefix_form_lexes(*value, s, pos + 4 + name.text.len(), line);
            lemma_assign_form_lexes(name, *value, s, pos, line);
        },
        _ => {},
    }
}

/// The prefix form of an expression is an expression of the language where
/// the expression is made of `nil`, `true`, `false`, numbers, variables,
/// unary operators and assignments ([`reads_back`]): scanned and parsed, the
/// prefix form gives the expression back, up to parentheses and up to the
/// lines of the tokens, which are all on line 1.
pub proof fn prefix_form_reads_back(e: ExprView)
    requires
        reads_back(e),
    ensures
        lex(expr_shown(e)) matches Ok(tokens) && spec_expression(tokens, 0) matches Parsed::Done {
            node,
            next,
        } && next == tokens.len() - 1 && kind_at(tokens, next) == TokenTypeDiscriminants::Eof
            && without_grouping(node) == on_line(e, 1),
{
    let s = expr_shown(e);
    assert(s.subrange(0, s.len() as int) =~= s);
    lemma_prefix_form_lexes(e, s, 0, 1);
    reveal(lexes_as);
    let own = prefix_tokens(e, 1);
    let tokens = own + seq![plain(TokenTypeDiscriminants::Eof, 1)];
    assert(lex(s) == Ok::<Seq<TokenView>, ParseError>(tokens));
    assert(tokens.subrange(0, own.len() as int) =~= own);
    assert(tokens[own.len() as int] == plain(TokenTypeDiscriminants::Eof, 1));
    lemma_prefix_tokens_parse(e, 1, tokens, 0);
    lemma_primary_is_expression(tokens, 0, read_back(e, 1), own.len() as int);
    lemma_read_back_is_the_expression(e, 1);
}

} // verus!
