use crate::ast::{arguments_source, expr_source, ExprView, LiteralView, StmtView};
use crate::error::ParseError;
use crate::parser::{
    is_operator, kind_at, lemma_arguments_moves, lemma_binary_moves, lemma_expression_moves,
    lemma_primary_moves, lemma_unary_moves, spec_arguments, spec_arguments_tail, spec_assignment,
    spec_binary, spec_binary_tail, spec_call, spec_call_tail, spec_expression, spec_operand,
    spec_primary, spec_unary, join, Parsed, spec_block_items, spec_declaration,
    spec_expression_statement, spec_for_statement, spec_function, spec_if_statement,
    spec_print_statement, spec_program, spec_return_statement, spec_statement,
    spec_while_statement,
};
use crate::round_trip::{
    closed_at, is_name, is_number_text, is_prefix_operator, lemma_binary_is_expression,
    lemma_literal_keywords, lemma_primary_is_unary, lemma_scan_number, lemma_scan_word, on_line,
    token_on_line, without_grouping,
};
use crate::scanner::{
    in_class, lemma_run_len, lemma_scan_advances, lex, lex_from, plain, scan_at, worded,
    CharClass, Scan,
};
use crate::token::{keyword, symbol, TokenTypeDiscriminants, TokenView};
use vstd::prelude::*;

verus! {

/// The precedence level of a binary operator, from 0, the loosest, to 5;
/// -1 for any other kind.
pub open spec fn level_of(kind: TokenTypeDiscriminants) -> int {
    match kind {
        TokenTypeDiscriminants::Or => 0,
        TokenTypeDiscriminants::And => 1,
        TokenTypeDiscriminants::BangEqual => 2,
        TokenTypeDiscriminants::EqualEqual => 2,
        TokenTypeDiscriminants::Greater => 3,
        TokenTypeDiscriminants::GreaterEqual => 3,
        TokenTypeDiscriminants::Less => 3,
        TokenTypeDiscriminants::LessEqual => 3,
        TokenTypeDiscriminants::Minus => 4,
        TokenTypeDiscriminants::Plus => 4,
        TokenTypeDiscriminants::Slash => 5,
        TokenTypeDiscriminants::Star => 5,
        _ => -1,
    }
}

/// Whether the token carries no text and has no lexeme.
pub open spec fn is_plain(token: TokenView) -> bool {
    token.lexeme is None && token.text == Seq::<char>::empty()
}

/// Whether `text` can stand between the quotes of a string literal: it
/// holds no double quote.
pub open spec fn is_string_text(text: Seq<char>) -> bool {
    forall|i: int| 0 <= i < text.len() ==> #[trigger] text[i] != '"'
}

/// Whether an expression is made of tokens as the scanner makes them, each
/// where the parser puts its kind: every expression that the parser reads
/// from scanned tokens is ([`parsed_expressions_are_printable`]).
pub open spec fn printable(e: ExprView) -> bool
    decreases e,
{
    match e {
        ExprView::Literal(LiteralView::Number(digits)) => is_number_text(digits),
        ExprView::Literal(LiteralView::String(text)) => is_string_text(text),
        ExprView::Literal(_) => true,
        ExprView::Variable(name) => is_name(name),
        ExprView::Grouping { grouping } => printable(*grouping),
        ExprView::Unary { operator, right } => is_prefix_operator(operator) && printable(*right),
        ExprView::Binary { left, operator, right } => is_plain(operator) && 2 <= level_of(
            operator.kind,
        ) <= 5 && printable(*left) && printable(*right),
        ExprView::Logical { left, operator, right } => is_plain(operator) && 0 <= level_of(
            operator.kind,
        ) <= 1 && printable(*left) && printable(*right),
        ExprView::Assign { name, value } => is_name(name) && printable(*value),
        ExprView::Call { callee, paren, arguments } => is_plain(paren) && paren.kind
            == TokenTypeDiscriminants::RightParen && printable(*callee) && arguments.len() <= 255
            && forall|i: int| 0 <= i < arguments.len() ==> printable(#[trigger] arguments[i]),
    }
}

/// The token of a literal, on line 1.
pub open spec fn literal_token(literal: LiteralView) -> TokenView {
    match literal {
        LiteralView::Nil => plain(TokenTypeDiscriminants::Nil, 1),
        LiteralView::Boolean(b) => plain(
            if b {
                TokenTypeDiscriminants::True
            } else {
                TokenTypeDiscriminants::False
            },
            1,
        ),
        LiteralView::Number(digits) => worded(TokenTypeDiscriminants::Number, digits, 1),
        LiteralView::String(text) => TokenView {
            kind: TokenTypeDiscriminants::String,
            text,
            lexeme: Some("\""@ + text + "\""@),
            line: 1,
        },
    }
}

/// The tokens of the source text of an expression, all on line 1.
pub open spec fn source_tokens(e: ExprView) -> Seq<TokenView>
    decreases e,
{
    match e {
        ExprView::Literal(l) => seq![literal_token(l)],
        ExprView::Variable(name) => seq![worded(TokenTypeDiscriminants::Identifier, name.text, 1)],
        ExprView::Grouping { grouping } => seq![plain(TokenTypeDiscriminants::LeftParen, 1)]
            + source_tokens(*grouping) + seq![plain(TokenTypeDiscriminants::RightParen, 1)],
        ExprView::Unary { operator, right } => seq![
            plain(TokenTypeDiscriminants::LeftParen, 1),
            plain(operator.kind, 1),
        ] + source_tokens(*right) + seq![plain(TokenTypeDiscriminants::RightParen, 1)],
        ExprView::Binary { left, operator, right } => seq![
            plain(TokenTypeDiscriminants::LeftParen, 1),
        ] + source_tokens(*left) + seq![plain(operator.kind, 1)] + source_tokens(*right) + seq![
            plain(TokenTypeDiscriminants::RightParen, 1),
        ],
        ExprView::Logical { left, operator, right } => seq![
            plain(TokenTypeDiscriminants::LeftParen, 1),
        ] + source_tokens(*left) + seq![plain(operator.kind, 1)] + source_tokens(*right) + seq![
            plain(TokenTypeDiscriminants::RightParen, 1),
        ],
        ExprView::Assign { name, value } => seq![
            plain(TokenTypeDiscriminants::LeftParen, 1),
            worded(TokenTypeDiscriminants::Identifier, name.text, 1),
            plain(TokenTypeDiscriminants::Equal, 1),
        ] + source_tokens(*value) + seq![plain(TokenTypeDiscriminants::RightParen, 1)],
        ExprView::Call { callee, paren, arguments } => seq![
            plain(TokenTypeDiscriminants::LeftParen, 1),
        ] + source_tokens(*callee) + seq![plain(TokenTypeDiscriminants::LeftParen, 1)]
            + arguments_tokens(arguments, arguments.len() as int) + seq![
            plain(TokenTypeDiscriminants::RightParen, 1),
            plain(TokenTypeDiscriminants::RightParen, 1),
        ],
    }
}

/// The tokens of the first `count` arguments of a call, a comma between one
/// and the next.
pub open spec fn arguments_tokens(arguments: Seq<ExprView>, count: int) -> Seq<TokenView>
    decreases arguments, count,
{
    if count <= 0 || count > arguments.len() {
        Seq::empty()
    } else if count == 1 {
        source_tokens(arguments[0])
    } else {
        arguments_tokens(arguments, count - 1) + seq![plain(TokenTypeDiscriminants::Comma, 1)]
            + source_tokens(arguments[count - 1])
    }
}

/// What the source text of an expression is read as, with every token on
/// line 1: the expression, with a grouping around every operator
/// application, assignment and call.
pub open spec fn read_source(e: ExprView) -> ExprView
    decreases e,
{
    match e {
        ExprView::Literal(l) => ExprView::Literal(l),
        ExprView::Variable(name) => ExprView::Variable(token_on_line(name, 1)),
        ExprView::Grouping { grouping } => ExprView::Grouping {
            grouping: Box::new(read_source(*grouping)),
        },
        ExprView::Unary { operator, right } => ExprView::Grouping {
            grouping: Box::new(
                ExprView::Unary {
                    operator: token_on_line(operator, 1),
                    right: Box::new(read_source(*right)),
                },
            ),
        },
        ExprView::Binary { left, operator, right } => ExprView::Grouping {
            grouping: Box::new(
                ExprView::Binary {
                    left: Box::new(read_source(*left)),
                    operator: token_on_line(operator, 1),
                    right: Box::new(read_source(*right)),
                },
            ),
        },
        ExprView::Logical { left, operator, right } => ExprView::Grouping {
            grouping: Box::new(
                ExprView::Logical {
                    left: Box::new(read_source(*left)),
                    operator: token_on_line(operator, 1),
                    right: Box::new(read_source(*right)),
                },
            ),
        },
        ExprView::Assign { name, value } => ExprView::Grouping {
            grouping: Box::new(
                ExprView::Assign {
                    name: token_on_line(name, 1),
                    value: Box::new(read_source(*value)),
                },
            ),
        },
        ExprView::Call { callee, paren, arguments } => ExprView::Grouping {
            grouping: Box::new(
                ExprView::Call {
                    callee: Box::new(read_source(*callee)),
                    paren: token_on_line(paren, 1),
                    arguments: Seq::new(
                        arguments.len(),
                        |i: int|
                            if 0 <= i < arguments.len() {
                                read_source(arguments[i])
                            } else {
                                ExprView::Literal(LiteralView::Nil)
                            },
                    ),
                },
            ),
        },
    }
}

/// A grouping is, without its parentheses, what stands in it.
pub proof fn lemma_grouping_falls(inner: ExprView)
    ensures
        without_grouping(ExprView::Grouping { grouping: Box::new(inner) }) == without_grouping(
            inner,
        ),
{
}

/// Whether what an expression is read as is the expression, up to
/// parentheses.
pub open spec fn reads_true(e: ExprView) -> bool {
    without_grouping(read_source(e)) == without_grouping(on_line(e, 1))
}

pub proof fn lemma_grouping_reads_true(grouping: ExprView)
    requires
        reads_true(grouping),
    ensures
        reads_true(ExprView::Grouping { grouping: Box::new(grouping) }),
{
    lemma_grouping_falls(read_source(grouping));
    lemma_grouping_falls(on_line(grouping, 1));
}

pub proof fn lemma_unary_reads_true(operator: TokenView, right: ExprView)
    requires
        reads_true(right),
    ensures
        reads_true(ExprView::Unary { operator, right: Box::new(right) }),
{
    lemma_grouping_falls(
        ExprView::Unary {
            operator: token_on_line(operator, 1),
            right: Box::new(read_source(right)),
        },
    );
}

pub proof fn lemma_binary_reads_true(left: ExprView, operator: TokenView, right: ExprView)
    requires
        reads_true(left),
        reads_true(right),
    ensures
        reads_true(ExprView::Binary { left: Box::new(left), operator, right: Box::new(right) }),
        reads_true(ExprView::Logical { left: Box::new(left), operator, right: Box::new(right) }),
{
    lemma_grouping_falls(
        ExprView::Binary {
            left: Box::new(read_source(left)),
            operator: token_on_line(operator, 1),
            right: Box::new(read_source(right)),
        },
    );
    lemma_grouping_falls(
        ExprView::Logical {
            left: Box::new(read_source(left)),
            operator: token_on_line(operator, 1),
            right: Box::new(read_source(right)),
        },
    );
}

pub proof fn lemma_assign_reads_true(name: TokenView, value: ExprView)
    requires
        reads_true(value),
    ensures
        reads_true(ExprView::Assign { name, value: Box::new(value) }),
{
    lemma_grouping_falls(
        ExprView::Assign { name: token_on_line(name, 1), value: Box::new(read_source(value)) },
    );
}

pub proof fn lemma_call_reads_true(callee: ExprView, paren: TokenView, arguments: Seq<ExprView>)
    requires
        reads_true(callee),
        forall|i: int| 0 <= i < arguments.len() ==> reads_true(#[trigger] arguments[i]),
    ensures
        reads_true(ExprView::Call { callee: Box::new(callee), paren, arguments }),
{
    let e = ExprView::Call { callee: Box::new(callee), paren, arguments };
    let read = Seq::new(
        arguments.len(),
        |i: int|
            if 0 <= i < arguments.len() {
                read_source(arguments[i])
            } else {
                ExprView::Literal(LiteralView::Nil)
            },
    );
    let inner = ExprView::Call {
        callee: Box::new(read_source(callee)),
        paren: token_on_line(paren, 1),
        arguments: read,
    };
    lemma_grouping_falls(inner);
    assert(read_source(e)->Grouping_grouping->Call_arguments =~= read);
    assert(read_source(e) == (ExprView::Grouping { grouping: Box::new(inner) }));
    let lined = on_line(e, 1)->Call_arguments;
    assert(lined.len() == arguments.len());
    let a = without_grouping(inner)->Call_arguments;
    let b = without_grouping(on_line(e, 1))->Call_arguments;
    assert(a.len() == arguments.len());
    assert(b.len() == arguments.len());
    assert forall|i: int| 0 <= i < arguments.len() implies a[i] == b[i] by {
        assert(reads_true(arguments[i]));
        assert(read[i] == read_source(arguments[i]));
        assert(lined[i] == on_line(arguments[i], 1));
        assert(a[i] == without_grouping(read[i]));
        assert(b[i] == without_grouping(lined[i]));
    }
    assert(a =~= b);
    assert(without_grouping(inner) == without_grouping(on_line(e, 1)));
}

/// What is read is the expression, up to parentheses.
pub proof fn lemma_read_source_is_the_expression(e: ExprView)
    ensures
        reads_true(e),
    decreases e,
{
    match e {
        ExprView::Grouping { grouping } => {
            lemma_read_source_is_the_expression(*grouping);
            lemma_grouping_reads_true(*grouping);
        },
        ExprView::Unary { operator, right } => {
            lemma_read_source_is_the_expression(*right);
            lemma_unary_reads_true(operator, *right);
        },
        ExprView::Binary { left, operator, right } => {
            lemma_read_source_is_the_expression(*left);
            lemma_read_source_is_the_expression(*right);
            lemma_binary_reads_true(*left, operator, *right);
        },
        ExprView::Logical { left, operator, right } => {
            lemma_read_source_is_the_expression(*left);
            lemma_read_source_is_the_expression(*right);
            lemma_binary_reads_true(*left, operator, *right);
        },
        ExprView::Assign { name, value } => {
            lemma_read_source_is_the_expression(*value);
            lemma_assign_reads_true(name, *value);
        },
        ExprView::Call { callee, paren, arguments } => {
            lemma_read_source_is_the_expression(*callee);
            assert forall|i: int| 0 <= i < arguments.len() implies reads_true(
                #[trigger] arguments[i],
            ) by {
                lemma_read_source_is_the_expression(arguments[i]);
            }
            lemma_call_reads_true(*callee, paren, arguments);
        },
        ExprView::Literal(l) => {
            lemma_atom_reads_true(e);
        },
        ExprView::Variable(name) => {
            lemma_atom_reads_true(e);
        },
    }
}

pub proof fn lemma_atom_reads_true(e: ExprView)
    requires
        e is Literal || e is Variable,
    ensures
        reads_true(e),
{
}

/// Whether the tokens from `pos` on are `want`, whatever their lines.
#[verifier::opaque]
pub open spec fn spelled(tokens: Seq<TokenView>, pos: int, want: Seq<TokenView>) -> bool {
    &&& 0 <= pos
    &&& pos + want.len() <= tokens.len()
    &&& forall|i: int|
        0 <= i < want.len() ==> #[trigger] want[i] == token_on_line(tokens[pos + i], 1)
}

/// Tokens that are two runs, one after the other, are the one and then the
/// other.
pub proof fn lemma_spelled_parts(
    tokens: Seq<TokenView>,
    pos: int,
    first: Seq<TokenView>,
    second: Seq<TokenView>,
)
    requires
        spelled(tokens, pos, first + second),
    ensures
        spelled(tokens, pos, first),
        spelled(tokens, pos + first.len(), second),
{
    reveal(spelled);
    let both = first + second;
    assert forall|i: int| 0 <= i < first.len() implies #[trigger] first[i] == token_on_line(
        tokens[pos + i],
        1,
    ) by {
        assert(both[i] == first[i]);
    }
    assert forall|i: int| 0 <= i < second.len() implies #[trigger] second[i] == token_on_line(
        tokens[pos + first.len() + i],
        1,
    ) by {
        assert(both[first.len() + i] == second[i]);
    }
}

/// Tokens that are spelled are there.
pub proof fn lemma_spelled_bounds(tokens: Seq<TokenView>, pos: int, want: Seq<TokenView>)
    requires
        spelled(tokens, pos, want),
    ensures
        0 <= pos,
        pos + want.len() <= tokens.len(),
{
    reveal(spelled);
}

/// The kind of a token that is spelled.
pub proof fn lemma_spelled_kind(tokens: Seq<TokenView>, pos: int, want: Seq<TokenView>, i: int)
    requires
        spelled(tokens, pos, want),
        0 <= i < want.len(),
    ensures
        kind_at(tokens, pos + i) == want[i].kind,
        token_on_line(tokens[pos + i], 1) == want[i],
        tokens[pos + i].text == want[i].text,
        0 <= pos,
        pos + want.len() <= tokens.len(),
{
    reveal(spelled);
    assert(want[i] == token_on_line(tokens[pos + i], 1));
}

/// Whether an expression can end before a token of this kind: a `)`, a
/// comma, a semicolon, or the end of input.
pub open spec fn closes(kind: TokenTypeDiscriminants) -> bool {
    kind == TokenTypeDiscriminants::RightParen || kind == TokenTypeDiscriminants::Comma || kind
        == TokenTypeDiscriminants::Semicolon || kind == TokenTypeDiscriminants::Eof
}

/// The expressions of a precedence level: of levels 0 to 5, the binary
/// expressions of that level; above, the unary expressions.
pub open spec fn at_level(level: int, tokens: Seq<TokenView>, pos: int) -> Parsed<ExprView> {
    if level >= 6 {
        spec_unary(tokens, pos)
    } else {
        spec_binary(level, tokens, pos)
    }
}

/// An expression of a level that no operator of the next looser level
/// follows is an expression of that looser level.
pub proof fn lemma_looser(level: int, tokens: Seq<TokenView>, pos: int, node: ExprView, next: int)
    requires
        0 <= level <= 5,
        0 <= pos <= tokens.len(),
        at_level(level + 1, tokens, pos) == (Parsed::Done { node, next }),
        !is_operator(level, kind_at(tokens, next)),
    ensures
        at_level(level, tokens, pos) == (Parsed::Done { node, next }),
{
    reveal(spec_binary);
    reveal(spec_operand);
    reveal(spec_binary_tail);
    reveal(spec_unary);
    if level < 5 {
        lemma_binary_moves(level + 1, tokens, pos);
    } else {
        lemma_unary_moves(tokens, pos);
    }
    assert(spec_operand(level, tokens, pos) == (Parsed::Done { node, next }));
    assert(spec_binary_tail(level, tokens, node, next) == (Parsed::Done { node, next }));
}

/// An expression of a level that no operator of a looser level down to
/// `low` follows is an expression of level `low`.
pub proof fn lemma_climb(
    low: int,
    high: int,
    tokens: Seq<TokenView>,
    pos: int,
    node: ExprView,
    next: int,
)
    requires
        0 <= low <= high <= 6,
        0 <= pos <= tokens.len(),
        at_level(high, tokens, pos) == (Parsed::Done { node, next }),
        forall|l: int| low <= l < high ==> !#[trigger] is_operator(l, kind_at(tokens, next)),
    ensures
        at_level(low, tokens, pos) == (Parsed::Done { node, next }),
    decreases high - low,
{
    if low < high {
        lemma_climb(low + 1, high, tokens, pos, node, next);
        assert(!is_operator(low, kind_at(tokens, next)));
        lemma_looser(low, tokens, pos, node, next);
    }
}

/// A unary expression that ends where an expression can end is an
/// expression.
pub proof fn lemma_unary_closes(tokens: Seq<TokenView>, pos: int, node: ExprView, next: int)
    requires
        0 <= pos <= tokens.len(),
        spec_unary(tokens, pos) == (Parsed::Done { node, next }),
        closes(kind_at(tokens, next)),
    ensures
        spec_expression(tokens, pos) == (Parsed::Done { node, next }),
{
    lemma_climb(0, 6, tokens, pos, node, next);
    lemma_binary_is_expression(tokens, pos, node, next);
}

/// A primary expression that ends where an expression can end is an
/// expression.
pub proof fn lemma_primary_closes(tokens: Seq<TokenView>, pos: int, node: ExprView, next: int)
    requires
        0 <= pos <= tokens.len(),
        spec_primary(tokens, pos) == (Parsed::Done { node, next }),
        closes(kind_at(tokens, next)),
    ensures
        spec_expression(tokens, pos) == (Parsed::Done { node, next }),
{
    lemma_primary_is_unary(tokens, pos, node, next);
    lemma_unary_closes(tokens, pos, node, next);
}

/// An expression between parentheses is a grouping.
pub proof fn lemma_grouped(tokens: Seq<TokenView>, pos: int, inner: ExprView, end: int)
    requires
        kind_at(tokens, pos) == TokenTypeDiscriminants::LeftParen,
        spec_expression(tokens, pos + 1) == (Parsed::Done { node: inner, next: end }),
        kind_at(tokens, end) == TokenTypeDiscriminants::RightParen,
    ensures
        spec_primary(tokens, pos) == (Parsed::Done {
            node: ExprView::Grouping { grouping: Box::new(inner) },
            next: end + 1,
        }),
{
    reveal(spec_primary);
    reveal(spec_expression);
}

/// Two primary expressions with a binary operator between them, ending
/// where an expression can end, are the application of the operator.
pub proof fn lemma_operator_applies(
    tokens: Seq<TokenView>,
    pos: int,
    left: ExprView,
    at: int,
    right: ExprView,
    end: int,
)
    requires
        0 <= pos <= tokens.len(),
        spec_primary(tokens, pos) == (Parsed::Done { node: left, next: at }),
        0 <= level_of(kind_at(tokens, at)) <= 5,
        spec_primary(tokens, at + 1) == (Parsed::Done { node: right, next: end }),
        closes(kind_at(tokens, end)),
    ensures
        spec_expression(tokens, pos) == (Parsed::Done {
            node: join(level_of(kind_at(tokens, at)), left, tokens[at], right),
            next: end,
        }),
{
    let kind = kind_at(tokens, at);
    let level = level_of(kind);
    let whole = join(level, left, tokens[at], right);
    lemma_primary_moves(tokens, pos);
    lemma_primary_is_unary(tokens, pos, left, at);
    assert forall|l: int| level + 1 <= l < 6 implies !#[trigger] is_operator(l, kind) by {}
    lemma_climb(level + 1, 6, tokens, pos, left, at);
    lemma_primary_moves(tokens, at + 1);
    lemma_primary_is_unary(tokens, at + 1, right, end);
    lemma_climb(level + 1, 6, tokens, at + 1, right, end);
    reveal(spec_binary);
    reveal(spec_operand);
    reveal(spec_binary_tail);
    reveal(spec_unary);
    assert(is_operator(level, kind));
    assert(spec_operand(level, tokens, pos) == (Parsed::Done { node: left, next: at }));
    assert(spec_operand(level, tokens, at + 1) == (Parsed::Done { node: right, next: end }));
    assert(spec_binary_tail(level, tokens, whole, end) == (Parsed::Done { node: whole, next: end }));
    assert(spec_binary_tail(level, tokens, left, at) == (Parsed::Done { node: whole, next: end }));
    assert(spec_binary(level, tokens, pos) == (Parsed::Done { node: whole, next: end }));
    lemma_climb(0, level, tokens, pos, whole, end);
    lemma_binary_is_expression(tokens, pos, whole, end);
}

/// A grouping on line 1 is the grouping of what stands in it on line 1.
pub proof fn lemma_grouping_on_line(inner: ExprView)
    ensures
        on_line(ExprView::Grouping { grouping: Box::new(inner) }, 1) == (ExprView::Grouping {
            grouping: Box::new(on_line(inner, 1)),
        }),
{
}

/// One argument of a call is read, and after a comma the next.
pub proof fn lemma_argument_read(
    tokens: Seq<TokenView>,
    before: Seq<ExprView>,
    here: int,
    given: ExprView,
    next: int,
)
    requires
        0 <= here <= tokens.len(),
        before.len() < 255,
        spec_expression(tokens, here) == (Parsed::Done { node: given, next }),
    ensures
        kind_at(tokens, next) == TokenTypeDiscriminants::Comma ==> spec_arguments_tail(
            tokens,
            before,
            here,
        ) == spec_arguments_tail(tokens, before.push(given), next + 1),
        kind_at(tokens, next) == TokenTypeDiscriminants::RightParen ==> spec_arguments_tail(
            tokens,
            before,
            here,
        ) == (Parsed::Done { node: before.push(given), next: next + 1 }),
{
    lemma_expression_moves(tokens, here);
    reveal(spec_arguments_tail);
    reveal(spec_expression);
}

/// What is called, a `(`, the arguments and a `)` are a call.
pub proof fn lemma_call_parses(
    tokens: Seq<TokenView>,
    pos: int,
    what: ExprView,
    open: int,
    given: Seq<ExprView>,
    end: int,
)
    requires
        0 <= pos <= tokens.len(),
        spec_primary(tokens, pos) == (Parsed::Done { node: what, next: open }),
        kind_at(tokens, open) == TokenTypeDiscriminants::LeftParen,
        spec_arguments(tokens, open + 1) == (Parsed::Done { node: given, next: end }),
        kind_at(tokens, end) != TokenTypeDiscriminants::LeftParen,
    ensures
        spec_unary(tokens, pos) == (Parsed::Done {
            node: ExprView::Call {
                callee: Box::new(what),
                paren: tokens[end - 1],
                arguments: given,
            },
            next: end,
        }),
{
    lemma_primary_moves(tokens, pos);
    lemma_arguments_moves(tokens, open + 1);
    reveal(spec_call);
    reveal(spec_call_tail);
    reveal(spec_arguments);
    reveal(spec_primary);
    reveal(spec_unary);
    let inner = ExprView::Call { callee: Box::new(what), paren: tokens[end - 1], arguments: given };
    assert(spec_call_tail(tokens, inner, end) == (Parsed::Done { node: inner, next: end }));
    assert(spec_call_tail(tokens, what, open) == (Parsed::Done { node: inner, next: end }));
    assert(spec_call(tokens, pos) == (Parsed::Done { node: inner, next: end }));
}

/// The arguments of a call are none where a `)` comes first, else those
/// that are read one after the other.
pub proof fn lemma_arguments_begin(tokens: Seq<TokenView>, start: int)
    ensures
        kind_at(tokens, start) == TokenTypeDiscriminants::RightParen ==> spec_arguments(
            tokens,
            start,
        ) == (Parsed::Done { node: Seq::<ExprView>::empty(), next: start + 1 }),
        kind_at(tokens, start) != TokenTypeDiscriminants::RightParen ==> spec_arguments(
            tokens,
            start,
        ) == spec_arguments_tail(tokens, Seq::empty(), start),
        spec_primary(tokens, start) is Done ==> kind_at(tokens, start)
            != TokenTypeDiscriminants::RightParen,
{
    reveal(spec_arguments);
    reveal(spec_arguments_tail);
    reveal(spec_primary);
}

/// Whether the tokens from `pos` on are read as a primary expression that
/// is `e` as its source text reads: see [`read_source`].
#[verifier::opaque]
pub open spec fn reads_as(tokens: Seq<TokenView>, pos: int, e: ExprView) -> bool {
    spec_primary(tokens, pos) matches Parsed::Done { node, next } && next == pos + source_tokens(
        e,
    ).len() && on_line(node, 1) == read_source(e)
}

/// Whether `node` is `e` as its source text reads, whatever the lines.
#[verifier::opaque]
pub open spec fn reads_like(node: ExprView, e: ExprView) -> bool {
    on_line(node, 1) == read_source(e)
}

/// What it is for tokens to be read as an expression.
pub proof fn lemma_reads_like(tokens: Seq<TokenView>, pos: int, e: ExprView)
    requires
        reads_as(tokens, pos, e),
    ensures
        spec_primary(tokens, pos) == (Parsed::Done {
            node: spec_primary(tokens, pos)->node,
            next: pos + source_tokens(e).len(),
        }),
        reads_like(spec_primary(tokens, pos)->node, e),
{
    reveal(reads_as);
    reveal(reads_like);
}

/// What it is for tokens to be read as an expression.
pub proof fn lemma_reads(tokens: Seq<TokenView>, pos: int, e: ExprView)
    requires
        reads_as(tokens, pos, e),
    ensures
        spec_primary(tokens, pos) == (Parsed::Done {
            node: spec_primary(tokens, pos)->node,
            next: pos + source_tokens(e).len(),
        }),
        on_line(spec_primary(tokens, pos)->node, 1) == read_source(e),
{
    reveal(reads_as);
}

/// Tokens that are read so are read as the expression.
pub proof fn lemma_reads_so(
    tokens: Seq<TokenView>,
    pos: int,
    e: ExprView,
    node: ExprView,
    next: int,
)
    requires
        spec_primary(tokens, pos) == (Parsed::Done { node, next }),
        next == pos + source_tokens(e).len(),
        on_line(node, 1) == read_source(e),
    ensures
        reads_as(tokens, pos, e),
{
    reveal(reads_as);
}

pub proof fn lemma_atom_reads(e: ExprView, tokens: Seq<TokenView>, pos: int)
    requires
        e is Literal || e is Variable,
        printable(e),
        spelled(tokens, pos, source_tokens(e)),
    ensures
        reads_as(tokens, pos, e),
{
    reveal(reads_as);
    reveal(spec_primary);
    lemma_spelled_kind(tokens, pos, source_tokens(e), 0);
}

pub proof fn lemma_grouping_reads(grouping: ExprView, tokens: Seq<TokenView>, pos: int)
    requires
        spelled(tokens, pos, source_tokens(ExprView::Grouping { grouping: Box::new(grouping) })),
        reads_as(tokens, pos + 1, grouping),
    ensures
        reads_as(tokens, pos, ExprView::Grouping { grouping: Box::new(grouping) }),
{
    reveal(reads_as);
    let e = ExprView::Grouping { grouping: Box::new(grouping) };
    let want = source_tokens(e);
    let k = source_tokens(grouping).len() as int;
    assert(want[0] == plain(TokenTypeDiscriminants::LeftParen, 1));
    assert(want[1 + k] == plain(TokenTypeDiscriminants::RightParen, 1));
    lemma_spelled_kind(tokens, pos, want, 0);
    lemma_spelled_kind(tokens, pos, want, 1 + k);
    let inner = spec_primary(tokens, pos + 1)->node;
    lemma_primary_closes(tokens, pos + 1, inner, pos + 1 + k);
    lemma_grouped(tokens, pos, inner, pos + 1 + k);
}

pub proof fn lemma_unary_reads(
    operator: TokenView,
    right: ExprView,
    tokens: Seq<TokenView>,
    pos: int,
)
    requires
        is_prefix_operator(operator),
        spelled(tokens, pos, source_tokens(ExprView::Unary { operator, right: Box::new(right) })),
        reads_as(tokens, pos + 2, right),
    ensures
        reads_as(tokens, pos, ExprView::Unary { operator, right: Box::new(right) }),
{
    reveal(reads_as);
    let e = ExprView::Unary { operator, right: Box::new(right) };
    let want = source_tokens(e);
    let k = source_tokens(right).len() as int;
    assert(want[0] == plain(TokenTypeDiscriminants::LeftParen, 1));
    assert(want[1] == plain(operator.kind, 1));
    assert(want[2 + k] == plain(TokenTypeDiscriminants::RightParen, 1));
    lemma_spelled_kind(tokens, pos, want, 0);
    lemma_spelled_kind(tokens, pos, want, 1);
    lemma_spelled_kind(tokens, pos, want, 2 + k);
    let end = pos + 2 + k;
    let operand = spec_primary(tokens, pos + 2)->node;
    lemma_primary_is_unary(tokens, pos + 2, operand, end);
    reveal(spec_unary);
    let inner = ExprView::Unary { operator: tokens[pos + 1], right: Box::new(operand) };
    assert(spec_unary(tokens, pos + 1) == (Parsed::Done { node: inner, next: end }));
    lemma_unary_closes(tokens, pos + 1, inner, end);
    lemma_grouped(tokens, pos, inner, end);
    lemma_grouping_on_line(inner);
    assert(on_line(inner, 1) == (ExprView::Unary {
        operator: token_on_line(operator, 1),
        right: Box::new(read_source(right)),
    }));
}

pub proof fn lemma_binary_reads(
    left: ExprView,
    operator: TokenView,
    right: ExprView,
    tokens: Seq<TokenView>,
    pos: int,
)
    requires
        is_plain(operator),
        2 <= level_of(operator.kind) <= 5,
        spelled(
            tokens,
            pos,
            source_tokens(
                ExprView::Binary { left: Box::new(left), operator, right: Box::new(right) },
            ),
        ),
        reads_as(tokens, pos + 1, left),
        reads_as(tokens, pos + 2 + source_tokens(left).len(), right),
    ensures
        reads_as(
            tokens,
            pos,
            ExprView::Binary { left: Box::new(left), operator, right: Box::new(right) },
        ),
{
    reveal(reads_as);
    let e = ExprView::Binary { left: Box::new(left), operator, right: Box::new(right) };
    let want = source_tokens(e);
    let a = source_tokens(left).len() as int;
    let b = source_tokens(right).len() as int;
    assert(want[0] == plain(TokenTypeDiscriminants::LeftParen, 1));
    assert(want[1 + a] == plain(operator.kind, 1));
    assert(want[2 + a + b] == plain(TokenTypeDiscriminants::RightParen, 1));
    lemma_spelled_kind(tokens, pos, want, 0);
    lemma_spelled_kind(tokens, pos, want, 1 + a);
    lemma_spelled_kind(tokens, pos, want, 2 + a + b);
    let first = spec_primary(tokens, pos + 1)->node;
    let second = spec_primary(tokens, pos + 2 + a)->node;
    lemma_operator_applies(tokens, pos + 1, first, pos + 1 + a, second, pos + 2 + a + b);
    let inner = join(level_of(operator.kind), first, tokens[pos + 1 + a], second);
    lemma_grouped(tokens, pos, inner, pos + 2 + a + b);
    lemma_grouping_on_line(inner);
    assert(on_line(inner, 1) == (ExprView::Binary {
        left: Box::new(read_source(left)),
        operator: token_on_line(operator, 1),
        right: Box::new(read_source(right)),
    }));
}

pub proof fn lemma_logical_reads(
    left: ExprView,
    operator: TokenView,
    right: ExprView,
    tokens: Seq<TokenView>,
    pos: int,
)
    requires
        is_plain(operator),
        0 <= level_of(operator.kind) <= 1,
        spelled(
            tokens,
            pos,
            source_tokens(
                ExprView::Logical { left: Box::new(left), operator, right: Box::new(right) },
            ),
        ),
        reads_as(tokens, pos + 1, left),
        reads_as(tokens, pos + 2 + source_tokens(left).len(), right),
    ensures
        reads_as(
            tokens,
            pos,
            ExprView::Logical { left: Box::new(left), operator, right: Box::new(right) },
        ),
{
    reveal(reads_as);
    let e = ExprView::Logical { left: Box::new(left), operator, right: Box::new(right) };
    let want = source_tokens(e);
    let a = source_tokens(left).len() as int;
    let b = source_tokens(right).len() as int;
    assert(want[0] == plain(TokenTypeDiscriminants::LeftParen, 1));
    assert(want[1 + a] == plain(operator.kind, 1));
    assert(want[2 + a + b] == plain(TokenTypeDiscriminants::RightParen, 1));
    lemma_spelled_kind(tokens, pos, want, 0);
    lemma_spelled_kind(tokens, pos, want, 1 + a);
    lemma_spelled_kind(tokens, pos, want, 2 + a + b);
    let first = spec_primary(tokens, pos + 1)->node;
    let second = spec_primary(tokens, pos + 2 + a)->node;
    lemma_operator_applies(tokens, pos + 1, first, pos + 1 + a, second, pos + 2 + a + b);
    let inner = join(level_of(operator.kind), first, tokens[pos + 1 + a], second);
    lemma_grouped(tokens, pos, inner, pos + 2 + a + b);
    lemma_grouping_on_line(inner);
    assert(on_line(inner, 1) == (ExprView::Logical {
        left: Box::new(read_source(left)),
        operator: token_on_line(operator, 1),
        right: Box::new(read_source(right)),
    }));
}

pub proof fn lemma_assign_reads(name: TokenView, value: ExprView, tokens: Seq<TokenView>, pos: int)
    requires
        is_name(name),
        spelled(tokens, pos, source_tokens(ExprView::Assign { name, value: Box::new(value) })),
        reads_as(tokens, pos + 3, value),
    ensures
        reads_as(tokens, pos, ExprView::Assign { name, value: Box::new(value) }),
{
    reveal(reads_as);
    let e = ExprView::Assign { name, value: Box::new(value) };
    let want = source_tokens(e);
    let k = source_tokens(value).len() as int;
    assert(want[0] == plain(TokenTypeDiscriminants::LeftParen, 1));
    assert(want[1] == worded(TokenTypeDiscriminants::Identifier, name.text, 1));
    assert(want[2] == plain(TokenTypeDiscriminants::Equal, 1));
    assert(want[3 + k] == plain(TokenTypeDiscriminants::RightParen, 1));
    lemma_spelled_kind(tokens, pos, want, 0);
    lemma_spelled_kind(tokens, pos, want, 1);
    lemma_spelled_kind(tokens, pos, want, 2);
    lemma_spelled_kind(tokens, pos, want, 3 + k);
    let end = pos + 3 + k;
    let target = ExprView::Variable(tokens[pos + 1]);
    reveal(spec_primary);
    assert(spec_primary(tokens, pos + 1) == (Parsed::Done { node: target, next: pos + 2 }));
    lemma_primary_is_unary(tokens, pos + 1, target, pos + 2);
    lemma_climb(0, 6, tokens, pos + 1, target, pos + 2);
    let given = spec_primary(tokens, pos + 3)->node;
    lemma_primary_closes(tokens, pos + 3, given, end);
    reveal(spec_expression);
    reveal(spec_assignment);
    reveal(spec_binary);
    let inner = ExprView::Assign { name: tokens[pos + 1], value: Box::new(given) };
    assert(spec_assignment(tokens, pos + 3) == (Parsed::Done { node: given, next: end }));
    assert(spec_assignment(tokens, pos + 1) == (Parsed::Done { node: inner, next: end }));
    assert(spec_expression(tokens, pos + 1) == (Parsed::Done { node: inner, next: end }));
    lemma_grouped(tokens, pos, inner, end);
    lemma_grouping_on_line(inner);
    assert(on_line(inner, 1) == (ExprView::Assign {
        name: token_on_line(name, 1),
        value: Box::new(read_source(value)),
    }));
}

/// Where argument `i` of a call begins among the tokens of its arguments.
pub open spec fn argument_offset(arguments: Seq<ExprView>, i: int) -> int {
    if i <= 0 {
        0
    } else {
        arguments_tokens(arguments, i).len() as int + 1
    }
}

/// Where the tokens of the arguments of a call are spelled, each argument
/// is spelled in its place, and a comma after it unless it is the last.
pub proof fn lemma_argument_spelled(
    arguments: Seq<ExprView>,
    count: int,
    i: int,
    tokens: Seq<TokenView>,
    start: int,
)
    requires
        0 <= i < count <= arguments.len(),
        spelled(tokens, start, arguments_tokens(arguments, count)),
    ensures
        spelled(tokens, start + argument_offset(arguments, i), source_tokens(arguments[i])),
        argument_offset(arguments, i) + source_tokens(arguments[i]).len() == arguments_tokens(
            arguments,
            i + 1,
        ).len(),
        arguments_tokens(arguments, i + 1).len() <= arguments_tokens(arguments, count).len(),
        i + 1 < count ==> kind_at(tokens, start + arguments_tokens(arguments, i + 1).len())
            == TokenTypeDiscriminants::Comma,
    decreases count,
{
    if count == 1 {
    } else {
        let before = arguments_tokens(arguments, count - 1);
        let comma = seq![plain(TokenTypeDiscriminants::Comma, 1)];
        let last = source_tokens(arguments[count - 1]);
        assert(arguments_tokens(arguments, count) == before + comma + last);
        lemma_spelled_parts(tokens, start, before + comma, last);
        lemma_spelled_parts(tokens, start, before, comma);
        if i == count - 1 {
        } else {
            lemma_argument_spelled(arguments, count - 1, i, tokens, start);
            if i + 1 == count - 1 {
                lemma_spelled_kind(tokens, start + before.len(), comma, 0);
            }
        }
    }
}

/// The arguments of a call from the `i`-th on are read, one after the
/// other, up to the closing parenthesis.
pub proof fn lemma_arguments_read(
    arguments: Seq<ExprView>,
    i: int,
    tokens: Seq<TokenView>,
    start: int,
    before: Seq<ExprView>,
)
    requires
        0 <= i < arguments.len() <= 255,
        before.len() == i,
        spelled(tokens, start, arguments_tokens(arguments, arguments.len() as int)),
        kind_at(tokens, start + arguments_tokens(arguments, arguments.len() as int).len())
            == TokenTypeDiscriminants::RightParen,
        forall|j: int|
            0 <= j < arguments.len() ==> reads_as(
                tokens,
                start + argument_offset(arguments, j),
                #[trigger] arguments[j],
            ),
        forall|j: int| 0 <= j < i ==> reads_like(#[trigger] before[j], arguments[j]),
    ensures
        spec_arguments_tail(
            tokens,
            before,
            start + argument_offset(arguments, i),
        ) matches Parsed::Done { node, next } && next == start + arguments_tokens(
            arguments,
            arguments.len() as int,
        ).len() + 1 && node.len() == arguments.len() && forall|j: int|
            0 <= j < arguments.len() ==> reads_like(#[trigger] node[j], arguments[j]),
    decreases arguments.len() - i,
{
    let count = arguments.len() as int;
    let here = start + argument_offset(arguments, i);
    lemma_argument_spelled(arguments, count, i, tokens, start);
    assert(reads_as(tokens, here, arguments[i]));
    lemma_reads_like(tokens, here, arguments[i]);
    lemma_spelled_bounds(tokens, here, source_tokens(arguments[i]));
    let given = spec_primary(tokens, here)->node;
    let next = here + source_tokens(arguments[i]).len();
    assert(next == start + arguments_tokens(arguments, i + 1).len());
    let all = before.push(given);
    assert forall|j: int| 0 <= j < i + 1 implies reads_like(#[trigger] all[j], arguments[j]) by {
        if j < i {
            assert(all[j] == before[j]);
        }
    }
    lemma_primary_closes(tokens, here, given, next);
    lemma_argument_read(tokens, before, here, given, next);
    if i + 1 < count {
        assert(argument_offset(arguments, i + 1) == next - start + 1);
        lemma_arguments_read(arguments, i + 1, tokens, start, all);
    }
}

pub proof fn lemma_call_reads(
    callee: ExprView,
    paren: TokenView,
    arguments: Seq<ExprView>,
    tokens: Seq<TokenView>,
    pos: int,
)
    requires
        is_plain(paren),
        paren.kind == TokenTypeDiscriminants::RightParen,
        arguments.len() <= 255,
        spelled(
            tokens,
            pos,
            source_tokens(ExprView::Call { callee: Box::new(callee), paren, arguments }),
        ),
        reads_as(tokens, pos + 1, callee),
        forall|j: int|
            0 <= j < arguments.len() ==> reads_as(
                tokens,
                pos + 2 + source_tokens(callee).len() + argument_offset(arguments, j),
                #[trigger] arguments[j],
            ),
    ensures
        reads_as(tokens, pos, ExprView::Call { callee: Box::new(callee), paren, arguments }),
{
    let e = ExprView::Call { callee: Box::new(callee), paren, arguments };
    let open = seq![plain(TokenTypeDiscriminants::LeftParen, 1)];
    let close = seq![
        plain(TokenTypeDiscriminants::RightParen, 1),
        plain(TokenTypeDiscriminants::RightParen, 1),
    ];
    let called = source_tokens(callee);
    let listed = arguments_tokens(arguments, arguments.len() as int);
    let c = called.len() as int;
    let n = listed.len() as int;
    lemma_call_spelled(callee, paren, arguments, tokens, pos);
    let start = pos + 2 + c;
    lemma_reads(tokens, pos + 1, callee);
    let what = spec_primary(tokens, pos + 1)->node;
    lemma_arguments_begin(tokens, start);
    let given = if arguments.len() == 0 {
        Seq::<ExprView>::empty()
    } else {
        spec_arguments_tail(tokens, Seq::empty(), start)->node
    };
    let end = start + n + 1;
    if arguments.len() > 0 {
        assert(reads_as(tokens, start + argument_offset(arguments, 0), arguments[0]));
        lemma_reads(tokens, start, arguments[0]);
        lemma_arguments_read(arguments, 0, tokens, start, Seq::empty());
    } else {
        assert(listed =~= Seq::<TokenView>::empty());
    }
    assert(spec_arguments(tokens, start) == (Parsed::Done { node: given, next: end }));
    let inner = ExprView::Call { callee: Box::new(what), paren: tokens[end - 1], arguments: given };
    lemma_call_parses(tokens, pos + 1, what, pos + 1 + c, given, end);
    lemma_unary_closes(tokens, pos + 1, inner, end);
    lemma_grouped(tokens, pos, inner, end);
    assert(token_on_line(tokens[end - 1], 1) == token_on_line(paren, 1));
    assert forall|j: int| 0 <= j < arguments.len() implies on_line(#[trigger] given[j], 1)
        == read_source(arguments[j]) by {
        reveal(reads_like);
        assert(reads_like(given[j], arguments[j]));
    }
    lemma_call_tree(callee, paren, arguments, what, tokens[end - 1], given);
    lemma_reads_so(
        tokens,
        pos,
        e,
        ExprView::Grouping { grouping: Box::new(inner) },
        end + 1,
    );
}

/// A call that was read of parts that are read as the parts of a call is
/// read as that call.
pub proof fn lemma_call_tree(
    callee: ExprView,
    paren: TokenView,
    arguments: Seq<ExprView>,
    what: ExprView,
    closing: TokenView,
    given: Seq<ExprView>,
)
    requires
        on_line(what, 1) == read_source(callee),
        token_on_line(closing, 1) == token_on_line(paren, 1),
        given.len() == arguments.len(),
        forall|j: int|
            0 <= j < arguments.len() ==> on_line(#[trigger] given[j], 1) == read_source(
                arguments[j],
            ),
    ensures
        on_line(
            ExprView::Grouping {
                grouping: Box::new(
                    ExprView::Call { callee: Box::new(what), paren: closing, arguments: given },
                ),
            },
            1,
        ) == read_source(ExprView::Call { callee: Box::new(callee), paren, arguments }),
{
    let e = ExprView::Call { callee: Box::new(callee), paren, arguments };
    let inner = ExprView::Call { callee: Box::new(what), paren: closing, arguments: given };
    lemma_grouping_on_line(inner);
    let read = read_source(e)->Grouping_grouping->Call_arguments;
    let lined = on_line(inner, 1)->Call_arguments;
    assert(lined.len() == arguments.len());
    assert forall|j: int| 0 <= j < arguments.len() implies lined[j] == read[j] by {
        assert(lined[j] == on_line(given[j], 1));
    }
    assert(lined =~= read);
    assert(on_line(inner, 1) == read_source(e)->Grouping_grouping);
}

/// How the tokens of a call are made up.
pub proof fn lemma_call_spelled(
    callee: ExprView,
    paren: TokenView,
    arguments: Seq<ExprView>,
    tokens: Seq<TokenView>,
    pos: int,
)
    requires
        spelled(
            tokens,
            pos,
            source_tokens(ExprView::Call { callee: Box::new(callee), paren, arguments }),
        ),
    ensures
        spelled(
            tokens,
            pos,
            seq![plain(TokenTypeDiscriminants::LeftParen, 1)] + source_tokens(callee) + seq![
                plain(TokenTypeDiscriminants::LeftParen, 1),
            ] + arguments_tokens(arguments, arguments.len() as int) + seq![
                plain(TokenTypeDiscriminants::RightParen, 1),
                plain(TokenTypeDiscriminants::RightParen, 1),
            ],
        ),
        spelled(tokens, pos + 1, source_tokens(callee)),
        spelled(
            tokens,
            pos + 2 + source_tokens(callee).len(),
            arguments_tokens(arguments, arguments.len() as int),
        ),
        ({
            let c = source_tokens(callee).len();
            let n = arguments_tokens(arguments, arguments.len() as int).len();
            &&& source_tokens(ExprView::Call { callee: Box::new(callee), paren, arguments }).len()
                == c + n + 4
            &&& 0 <= pos
            &&& pos + c + n + 4 <= tokens.len()
            &&& kind_at(tokens, pos) == TokenTypeDiscriminants::LeftParen
            &&& kind_at(tokens, pos + 1 + c) == TokenTypeDiscriminants::LeftParen
            &&& kind_at(tokens, pos + 2 + c + n) == TokenTypeDiscriminants::RightParen
            &&& kind_at(tokens, pos + 3 + c + n) == TokenTypeDiscriminants::RightParen
            &&& token_on_line(tokens[pos + 2 + c + n], 1) == plain(
                TokenTypeDiscriminants::RightParen,
                1,
            )
        }),
{
    let open = seq![plain(TokenTypeDiscriminants::LeftParen, 1)];
    let close = seq![
        plain(TokenTypeDiscriminants::RightParen, 1),
        plain(TokenTypeDiscriminants::RightParen, 1),
    ];
    let called = source_tokens(callee);
    let listed = arguments_tokens(arguments, arguments.len() as int);
    lemma_spelled_parts(tokens, pos, open + called + open + listed, close);
    lemma_spelled_parts(tokens, pos, open + called + open, listed);
    lemma_spelled_parts(tokens, pos, open + called, open);
    lemma_spelled_parts(tokens, pos, open, called);
    let c = called.len() as int;
    let n = listed.len() as int;
    lemma_spelled_kind(tokens, pos, open, 0);
    lemma_spelled_kind(tokens, pos + 1 + c, open, 0);
    lemma_spelled_kind(tokens, pos + 2 + c + n, close, 0);
    lemma_spelled_kind(tokens, pos + 2 + c + n, close, 1);
}

/// Where the operands stand among the tokens of an expression.
pub proof fn lemma_operands_spelled(e: ExprView, tokens: Seq<TokenView>, pos: int)
    requires
        spelled(tokens, pos, source_tokens(e)),
    ensures
        match e {
            ExprView::Grouping { grouping } => spelled(tokens, pos + 1, source_tokens(*grouping)),
            ExprView::Unary { operator, right } => spelled(tokens, pos + 2, source_tokens(*right)),
            ExprView::Binary { left, operator, right } => spelled(
                tokens,
                pos + 1,
                source_tokens(*left),
            ) && spelled(tokens, pos + 2 + source_tokens(*left).len(), source_tokens(*right)),
            ExprView::Logical { left, operator, right } => spelled(
                tokens,
                pos + 1,
                source_tokens(*left),
            ) && spelled(tokens, pos + 2 + source_tokens(*left).len(), source_tokens(*right)),
            ExprView::Assign { name, value } => spelled(tokens, pos + 3, source_tokens(*value)),
            _ => true,
        },
{
    let one = seq![plain(TokenTypeDiscriminants::LeftParen, 1)];
    let end = seq![plain(TokenTypeDiscriminants::RightParen, 1)];
    match e {
        ExprView::Grouping { grouping } => {
            lemma_spelled_parts(tokens, pos, one + source_tokens(*grouping), end);
            lemma_spelled_parts(tokens, pos, one, source_tokens(*grouping));
        },
        ExprView::Unary { operator, right } => {
            let head = seq![
                plain(TokenTypeDiscriminants::LeftParen, 1),
                plain(operator.kind, 1),
            ];
            lemma_spelled_parts(tokens, pos, head + source_tokens(*right), end);
            lemma_spelled_parts(tokens, pos, head, source_tokens(*right));
        },
        ExprView::Binary { left, operator, right } => {
            let sign = seq![plain(operator.kind, 1)];
            let a = source_tokens(*left);
            let b = source_tokens(*right);
            lemma_spelled_parts(tokens, pos, one + a + sign + b, end);
            lemma_spelled_parts(tokens, pos, one + a + sign, b);
            lemma_spelled_parts(tokens, pos, one + a, sign);
            lemma_spelled_parts(tokens, pos, one, a);
        },
        ExprView::Logical { left, operator, right } => {
            let sign = seq![plain(operator.kind, 1)];
            let a = source_tokens(*left);
            let b = source_tokens(*right);
            lemma_spelled_parts(tokens, pos, one + a + sign + b, end);
            lemma_spelled_parts(tokens, pos, one + a + sign, b);
            lemma_spelled_parts(tokens, pos, one + a, sign);
            lemma_spelled_parts(tokens, pos, one, a);
        },
        ExprView::Assign { name, value } => {
            let head = seq![
                plain(TokenTypeDiscriminants::LeftParen, 1),
                worded(TokenTypeDiscriminants::Identifier, name.text, 1),
                plain(TokenTypeDiscriminants::Equal, 1),
            ];
            lemma_spelled_parts(tokens, pos, head + source_tokens(*value), end);
            lemma_spelled_parts(tokens, pos, head, source_tokens(*value));
        },
        _ => {},
    }
}

/// The tokens of the source text of an expression are read as the
/// expression, with a grouping around every operator application,
/// assignment and call.
pub proof fn lemma_source_tokens_parse(e: ExprView, tokens: Seq<TokenView>, pos: int)
    requires
        printable(e),
        spelled(tokens, pos, source_tokens(e)),
    ensures
        reads_as(tokens, pos, e),
    decreases e,
{
    lemma_operands_spelled(e, tokens, pos);
    match e {
        ExprView::Grouping { grouping } => {
            lemma_source_tokens_parse(*grouping, tokens, pos + 1);
            lemma_grouping_reads(*grouping, tokens, pos);
        },
        ExprView::Unary { operator, right } => {
            lemma_source_tokens_parse(*right, tokens, pos + 2);
            lemma_unary_reads(operator, *right, tokens, pos);
        },
        ExprView::Binary { left, operator, right } => {
            lemma_source_tokens_parse(*left, tokens, pos + 1);
            lemma_source_tokens_parse(*right, tokens, pos + 2 + source_tokens(*left).len());
            lemma_binary_reads(*left, operator, *right, tokens, pos);
        },
        ExprView::Logical { left, operator, right } => {
            lemma_source_tokens_parse(*left, tokens, pos + 1);
            lemma_source_tokens_parse(*right, tokens, pos + 2 + source_tokens(*left).len());
            lemma_logical_reads(*left, operator, *right, tokens, pos);
        },
        ExprView::Assign { name, value } => {
            lemma_source_tokens_parse(*value, tokens, pos + 3);
            lemma_assign_reads(name, *value, tokens, pos);
        },
        ExprView::Call { callee, paren, arguments } => {
            lemma_call_spelled(*callee, paren, arguments, tokens, pos);
            lemma_source_tokens_parse(*callee, tokens, pos + 1);
            let start = pos + 2 + source_tokens(*callee).len();
            assert forall|j: int| 0 <= j < arguments.len() implies reads_as(
                tokens,
                start + argument_offset(arguments, j),
                #[trigger] arguments[j],
            ) by {
                lemma_argument_spelled(arguments, arguments.len() as int, j, tokens, start);
                lemma_source_tokens_parse(
                    arguments[j],
                    tokens,
                    start + argument_offset(arguments, j),
                );
            }
            lemma_call_reads(*callee, paren, arguments, tokens, pos);
        },
        _ => {
            lemma_atom_reads(e, tokens, pos);
        },
    }
}

/// The tokens on another line.
pub open spec fn tokens_on_line(tokens: Seq<TokenView>, line: int) -> Seq<TokenView> {
    tokens.map_values(|t: TokenView| token_on_line(t, line))
}

/// What the scanner reads, without the lines: the tokens on line 1, or
/// nothing where the text is refused.
pub open spec fn kinds_and_texts(read: Result<Seq<TokenView>, ParseError>) -> Option<
    Seq<TokenView>,
> {
    match read {
        Ok(tokens) => Some(tokens_on_line(tokens, 1)),
        Err(_) => None,
    }
}

/// `first` and then what `rest` holds, if it holds anything.
pub open spec fn and_then(first: Seq<TokenView>, rest: Option<Seq<TokenView>>) -> Option<
    Seq<TokenView>,
> {
    match rest {
        Some(more) => Some(first + more),
        None => None,
    }
}

/// Whether the scanner, from offset `pos` of `s` on, reads the tokens
/// `want`, whatever their lines, and then what it reads from offset `end`
/// on.
#[verifier::opaque]
pub open spec fn scans_as(s: Seq<char>, pos: int, want: Seq<TokenView>, end: int) -> bool {
    kinds_and_texts(lex_from(s, pos, 1)) == and_then(want, kinds_and_texts(lex_from(s, end, 1)))
}

/// What the scanner reads at an offset does not depend on the line, but for
/// the lines of the tokens.
pub proof fn lemma_scan_line_free(s: Seq<char>, pos: int, one: int, other: int)
    requires
        0 <= pos < s.len(),
    ensures
        match (scan_at(s, pos, one), scan_at(s, pos, other)) {
            (
                Scan::Token { token: a, next: m, line: _ },
                Scan::Token { token: b, next: n, line: _ },
            ) => m == n && token_on_line(a, 1) == token_on_line(b, 1),
            (Scan::Skip { next: m, line: _ }, Scan::Skip { next: n, line: _ }) => m == n,
            (Scan::Failure { error: _ }, Scan::Failure { error: _ }) => true,
            _ => false,
        },
{
}

/// What the scanner reads from an offset on does not depend on the line,
/// but for the lines of the tokens.
pub proof fn lemma_lex_line_free(s: Seq<char>, pos: int, one: int, other: int)
    ensures
        kinds_and_texts(lex_from(s, pos, one)) == kinds_and_texts(lex_from(s, pos, other)),
    decreases s.len() - pos,
{
    if 0 <= pos < s.len() {
        lemma_scan_line_free(s, pos, one, other);
        lemma_scan_advances(s, pos, one);
        lemma_scan_advances(s, pos, other);
        match (scan_at(s, pos, one), scan_at(s, pos, other)) {
            (
                Scan::Token { token: a, next: m, line: after },
                Scan::Token { token: b, next: n, line: later },
            ) => {
                lemma_lex_line_free(s, m, after, later);
                match (lex_from(s, m, after), lex_from(s, m, later)) {
                    (Ok(x), Ok(y)) => {
                        assert(tokens_on_line(seq![a] + x, 1) =~= seq![token_on_line(a, 1)]
                            + tokens_on_line(x, 1));
                        assert(tokens_on_line(seq![b] + y, 1) =~= seq![token_on_line(b, 1)]
                            + tokens_on_line(y, 1));
                    },
                    _ => {},
                }
            },
            (Scan::Skip { next: m, line: after }, Scan::Skip { next: n, line: later }) => {
                lemma_lex_line_free(s, m, after, later);
            },
            _ => {},
        }
    } else {
        assert(tokens_on_line(seq![plain(TokenTypeDiscriminants::Eof, one)], 1) =~= tokens_on_line(
            seq![plain(TokenTypeDiscriminants::Eof, other)],
            1,
        ));
    }
}

/// The scanner reads one token and goes on.
pub proof fn lemma_token_scans(s: Seq<char>, pos: int, want: TokenView, next: int)
    requires
        0 <= pos < s.len(),
        scan_at(s, pos, 1) matches Scan::Token { token, next: n, line: _ } && n == next
            && token_on_line(token, 1) == want,
    ensures
        scans_as(s, pos, seq![want], next),
        pos < next <= s.len(),
{
    reveal(scans_as);
    lemma_scan_advances(s, pos, 1);
    match scan_at(s, pos, 1) {
        Scan::Token { token, next: n, line: after } => {
            lemma_lex_line_free(s, next, after, 1);
            match lex_from(s, next, after) {
                Ok(rest) => {
                    assert(tokens_on_line(seq![token] + rest, 1) =~= seq![want] + tokens_on_line(
                        rest,
                        1,
                    ));
                },
                Err(_) => {},
            }
        },
        _ => {},
    }
}

/// The scanner passes a blank.
pub proof fn lemma_blank_scans(s: Seq<char>, pos: int)
    requires
        0 <= pos < s.len(),
        s[pos] == ' ',
    ensures
        scans_as(s, pos, Seq::empty(), pos + 1),
{
    reveal(scans_as);
    match kinds_and_texts(lex_from(s, pos + 1, 1)) {
        Some(more) => {
            assert(Seq::<TokenView>::empty() + more =~= more);
        },
        None => {},
    }
}

/// Reading one run of tokens and then another is reading the runs joined.
pub proof fn lemma_scans_join(
    s: Seq<char>,
    pos: int,
    first: Seq<TokenView>,
    middle: int,
    second: Seq<TokenView>,
    end: int,
)
    requires
        scans_as(s, pos, first, middle),
        scans_as(s, middle, second, end),
    ensures
        scans_as(s, pos, first + second, end),
{
    reveal(scans_as);
    match kinds_and_texts(lex_from(s, end, 1)) {
        Some(more) => {
            assert(first + (second + more) =~= (first + second) + more);
        },
        None => {},
    }
}

/// Whether `text` stands in `s` at offset `pos`.
pub open spec fn text_at(s: Seq<char>, pos: int, text: Seq<char>) -> bool {
    0 <= pos && pos + text.len() <= s.len() && s.subrange(pos, pos + text.len()) == text
}

/// A text that is two parts, one after the other, is the one and then the
/// other.
pub proof fn lemma_text_parts(s: Seq<char>, pos: int, first: Seq<char>, second: Seq<char>)
    requires
        text_at(s, pos, first + second),
    ensures
        text_at(s, pos, first),
        text_at(s, pos + first.len(), second),
{
    let both = first + second;
    assert(s.subrange(pos, pos + first.len()) =~= first) by {
        assert forall|i: int| 0 <= i < first.len() implies s[pos + i] == first[i] by {
            assert(s.subrange(pos, pos + both.len())[i] == both[i]);
        }
    }
    assert(s.subrange(pos + first.len(), pos + first.len() + second.len()) =~= second) by {
        assert forall|i: int| 0 <= i < second.len() implies s[pos + first.len() + i]
            == second[i] by {
            assert(s.subrange(pos, pos + both.len())[first.len() + i] == both[first.len() + i]);
        }
    }
}

/// A character of a text that stands in `s` stands in `s`.
pub proof fn lemma_text_char(s: Seq<char>, pos: int, text: Seq<char>, i: int)
    requires
        text_at(s, pos, text),
        0 <= i < text.len(),
    ensures
        s[pos + i] == text[i],
{
    assert(s.subrange(pos, pos + text.len())[i] == s[pos + i]);
}

/// A parenthesis is scanned into its token.
pub proof fn lemma_paren_scans(s: Seq<char>, pos: int)
    requires
        0 <= pos < s.len(),
        s[pos] == '(' || s[pos] == ')',
    ensures
        s[pos] == '(' ==> scans_as(
            s,
            pos,
            seq![plain(TokenTypeDiscriminants::LeftParen, 1)],
            pos + 1,
        ),
        s[pos] == ')' ==> scans_as(
            s,
            pos,
            seq![plain(TokenTypeDiscriminants::RightParen, 1)],
            pos + 1,
        ),
{
    if s[pos] == '(' {
        lemma_token_scans(s, pos, plain(TokenTypeDiscriminants::LeftParen, 1), pos + 1);
    } else {
        lemma_token_scans(s, pos, plain(TokenTypeDiscriminants::RightParen, 1), pos + 1);
    }
}

/// A comma and a blank are scanned into a comma.
pub proof fn lemma_comma_scans(s: Seq<char>, pos: int)
    requires
        0 <= pos,
        pos + 1 < s.len(),
        s[pos] == ',',
        s[pos + 1] == ' ',
    ensures
        scans_as(s, pos, seq![plain(TokenTypeDiscriminants::Comma, 1)], pos + 2),
{
    lemma_token_scans(s, pos, plain(TokenTypeDiscriminants::Comma, 1), pos + 1);
    lemma_blank_scans(s, pos + 1);
    lemma_scans_join(
        s,
        pos,
        seq![plain(TokenTypeDiscriminants::Comma, 1)],
        pos + 1,
        Seq::empty(),
        pos + 2,
    );
    assert(seq![plain(TokenTypeDiscriminants::Comma, 1)] + Seq::<TokenView>::empty() =~= seq![
        plain(TokenTypeDiscriminants::Comma, 1),
    ]);
}

/// A word between what is no word is scanned into the token of a reserved
/// word, or into an identifier.
pub proof fn lemma_word_scans(s: Seq<char>, pos: int, word: Seq<char>)
    requires
        text_at(s, pos, word),
        word.len() >= 1,
        crate::scanner::is_alpha(word[0]),
        forall|i: int| 0 <= i < word.len() ==> in_class(CharClass::Word, #[trigger] word[i]),
        closed_at(s, pos + word.len()),
    ensures
        scans_as(
            s,
            pos,
            seq![
                match keyword(word) {
                    Some(kind) => plain(kind, 1),
                    None => worded(TokenTypeDiscriminants::Identifier, word, 1),
                },
            ],
            pos + word.len(),
        ),
{
    let n = word.len() as int;
    assert forall|i: int| pos <= i < pos + n implies in_class(CharClass::Word, #[trigger] s[i]) by {
        lemma_text_char(s, pos, word, i - pos);
    }
    lemma_text_char(s, pos, word, 0);
    lemma_scan_word(s, pos, 1, n);
    let token = match keyword(word) {
        Some(kind) => plain(kind, 1),
        None => worded(TokenTypeDiscriminants::Identifier, word, 1),
    };
    lemma_token_scans(s, pos, token, pos + n);
}

/// A number between what is no number is scanned into its token.
pub proof fn lemma_number_scans(s: Seq<char>, pos: int, digits: Seq<char>)
    requires
        text_at(s, pos, digits),
        is_number_text(digits),
        closed_at(s, pos + digits.len()),
    ensures
        digits.len() >= 1,
        scans_as(
            s,
            pos,
            seq![worded(TokenTypeDiscriminants::Number, digits, 1)],
            pos + digits.len(),
        ),
{
    lemma_scan_number(s, pos, 1, digits.len() as int);
    lemma_token_scans(
        s,
        pos,
        worded(TokenTypeDiscriminants::Number, digits, 1),
        pos + digits.len(),
    );
}

/// A string in its quotes is scanned into its token.
pub proof fn lemma_string_scans(s: Seq<char>, pos: int, text: Seq<char>)
    requires
        text_at(s, pos, "\""@ + text + "\""@),
        is_string_text(text),
    ensures
        ("\""@ + text + "\""@).len() == text.len() + 2,
        scans_as(s, pos, seq![literal_token(LiteralView::String(text))], pos + text.len() + 2),
{
    reveal_strlit("\"");
    let quoted = "\""@ + text + "\""@;
    let n = text.len() as int;
    lemma_text_char(s, pos, quoted, 0);
    lemma_text_char(s, pos, quoted, n + 1);
    assert forall|k: int| pos + 1 <= k < pos + 1 + n implies in_class(
        CharClass::NotQuote,
        #[trigger] s[k],
    ) by {
        lemma_text_char(s, pos, quoted, k - pos);
        assert(quoted[k - pos] == text[k - pos - 1]);
    }
    lemma_run_len(s, pos + 1, pos + 1 + n, CharClass::NotQuote);
    assert(s.subrange(pos + 1, pos + 1 + n) =~= text) by {
        assert forall|i: int| 0 <= i < n implies s[pos + 1 + i] == text[i] by {
            lemma_text_char(s, pos, quoted, i + 1);
        }
    }
    assert(s.subrange(pos, pos + n + 2) == quoted);
    lemma_token_scans(s, pos, literal_token(LiteralView::String(text)), pos + n + 2);
}

/// `or` and `and` are reserved words.
pub proof fn lemma_logical_keywords()
    ensures
        keyword("or"@) == Some(TokenTypeDiscriminants::Or),
        keyword("and"@) == Some(TokenTypeDiscriminants::And),
{
    reveal_strlit("and");
    reveal_strlit("class");
    reveal_strlit("else");
    reveal_strlit("false");
    reveal_strlit("fun");
    reveal_strlit("for");
    reveal_strlit("if");
    reveal_strlit("nil");
    reveal_strlit("or");
    assert("or"@[0] != "if"@[0]);
}

/// An operator of one character between blanks is scanned into its token.
pub proof fn lemma_short_operator_scans(s: Seq<char>, pos: int, kind: TokenTypeDiscriminants)
    requires
        0 <= pos,
        pos + 2 < s.len(),
        s[pos] == ' ',
        s[pos + 2] == ' ',
        (kind == TokenTypeDiscriminants::Minus && s[pos + 1] == '-') || (kind
            == TokenTypeDiscriminants::Plus && s[pos + 1] == '+') || (kind
            == TokenTypeDiscriminants::Slash && s[pos + 1] == '/') || (kind
            == TokenTypeDiscriminants::Star && s[pos + 1] == '*') || (kind
            == TokenTypeDiscriminants::Greater && s[pos + 1] == '>') || (kind
            == TokenTypeDiscriminants::Less && s[pos + 1] == '<') || (kind
            == TokenTypeDiscriminants::Equal && s[pos + 1] == '='),
    ensures
        scans_as(s, pos, seq![plain(kind, 1)], pos + 3),
{
    lemma_blank_scans(s, pos);
    lemma_token_scans(s, pos + 1, plain(kind, 1), pos + 2);
    lemma_blank_scans(s, pos + 2);
    lemma_scans_join(s, pos, Seq::empty(), pos + 1, seq![plain(kind, 1)], pos + 2);
    lemma_scans_join(
        s,
        pos,
        Seq::empty() + seq![plain(kind, 1)],
        pos + 2,
        Seq::empty(),
        pos + 3,
    );
    assert(Seq::<TokenView>::empty() + seq![plain(kind, 1)] + Seq::<TokenView>::empty() =~= seq![
        plain(kind, 1),
    ]);
}

/// An operator of two characters between blanks is scanned into its token.
pub proof fn lemma_long_operator_scans(s: Seq<char>, pos: int, kind: TokenTypeDiscriminants)
    requires
        0 <= pos,
        pos + 3 < s.len(),
        s[pos] == ' ',
        s[pos + 2] == '=',
        s[pos + 3] == ' ',
        (kind == TokenTypeDiscriminants::BangEqual && s[pos + 1] == '!') || (kind
            == TokenTypeDiscriminants::EqualEqual && s[pos + 1] == '=') || (kind
            == TokenTypeDiscriminants::GreaterEqual && s[pos + 1] == '>') || (kind
            == TokenTypeDiscriminants::LessEqual && s[pos + 1] == '<'),
    ensures
        scans_as(s, pos, seq![plain(kind, 1)], pos + 4),
{
    lemma_blank_scans(s, pos);
    lemma_token_scans(s, pos + 1, plain(kind, 1), pos + 3);
    lemma_blank_scans(s, pos + 3);
    lemma_scans_join(s, pos, Seq::empty(), pos + 1, seq![plain(kind, 1)], pos + 3);
    lemma_scans_join(
        s,
        pos,
        Seq::empty() + seq![plain(kind, 1)],
        pos + 3,
        Seq::empty(),
        pos + 4,
    );
    assert(Seq::<TokenView>::empty() + seq![plain(kind, 1)] + Seq::<TokenView>::empty() =~= seq![
        plain(kind, 1),
    ]);
}

/// `or` and `and` between blanks are scanned into their tokens.
pub proof fn lemma_word_operator_scans(s: Seq<char>, pos: int, kind: TokenTypeDiscriminants)
    requires
        kind == TokenTypeDiscriminants::Or || kind == TokenTypeDiscriminants::And,
        text_at(s, pos, " "@ + symbol(kind) + " "@),
    ensures
        scans_as(s, pos, seq![plain(kind, 1)], pos + symbol(kind).len() + 2),
{
    reveal_strlit(" ");
    reveal_strlit("or");
    reveal_strlit("and");
    lemma_logical_keywords();
    let word = symbol(kind);
    let n = word.len() as int;
    lemma_text_parts(s, pos, " "@ + word, " "@);
    lemma_text_parts(s, pos, " "@, word);
    lemma_text_char(s, pos, " "@, 0);
    lemma_text_char(s, pos + 1 + n, " "@, 0);
    lemma_blank_scans(s, pos);
    lemma_word_scans(s, pos + 1, word);
    lemma_blank_scans(s, pos + 1 + n);
    lemma_scans_join(s, pos, Seq::empty(), pos + 1, seq![plain(kind, 1)], pos + 1 + n);
    lemma_scans_join(
        s,
        pos,
        Seq::empty() + seq![plain(kind, 1)],
        pos + 1 + n,
        Seq::empty(),
        pos + 2 + n,
    );
    assert(Seq::<TokenView>::empty() + seq![plain(kind, 1)] + Seq::<TokenView>::empty() =~= seq![
        plain(kind, 1),
    ]);
}

/// A binary operator between blanks is scanned into its token.
pub proof fn lemma_operator_scans(s: Seq<char>, pos: int, kind: TokenTypeDiscriminants)
    requires
        0 <= level_of(kind) <= 5,
        text_at(s, pos, " "@ + symbol(kind) + " "@),
    ensures
        scans_as(s, pos, seq![plain(kind, 1)], pos + symbol(kind).len() + 2),
{
    reveal_strlit(" ");
    reveal_strlit("!=");
    reveal_strlit("==");
    reveal_strlit(">");
    reveal_strlit(">=");
    reveal_strlit("<");
    reveal_strlit("<=");
    reveal_strlit("-");
    reveal_strlit("+");
    reveal_strlit("/");
    reveal_strlit("*");
    if kind == TokenTypeDiscriminants::Or || kind == TokenTypeDiscriminants::And {
        lemma_word_operator_scans(s, pos, kind);
    } else {
        let sign = symbol(kind);
        let n = sign.len() as int;
        lemma_text_parts(s, pos, " "@ + sign, " "@);
        lemma_text_parts(s, pos, " "@, sign);
        lemma_text_char(s, pos, " "@, 0);
        lemma_text_char(s, pos + 1 + n, " "@, 0);
        lemma_text_char(s, pos + 1, sign, 0);
        if n == 2 {
            lemma_text_char(s, pos + 1, sign, 1);
            lemma_long_operator_scans(s, pos, kind);
        } else {
            lemma_short_operator_scans(s, pos, kind);
        }
    }
}

/// `!` and `-` before an operand are scanned into their tokens.
pub proof fn lemma_sign_scans(s: Seq<char>, pos: int, kind: TokenTypeDiscriminants)
    requires
        0 <= pos,
        pos + 1 < s.len(),
        s[pos + 1] != '=',
        (kind == TokenTypeDiscriminants::Bang && s[pos] == '!') || (kind
            == TokenTypeDiscriminants::Minus && s[pos] == '-'),
    ensures
        scans_as(s, pos, seq![plain(kind, 1)], pos + 1),
{
    lemma_token_scans(s, pos, plain(kind, 1), pos + 1);
}

/// A literal or a variable as it is written is scanned into its token.
pub proof fn lemma_atom_scans(e: ExprView, s: Seq<char>, pos: int)
    requires
        e is Literal || e is Variable,
        printable(e),
        text_at(s, pos, expr_source(e)),
        closed_at(s, pos + expr_source(e).len()),
    ensures
        expr_source(e).len() >= 1,
        expr_source(e)[0] != '=',
        scans_as(s, pos, source_tokens(e), pos + expr_source(e).len()),
{
    reveal(expr_source);
    match e {
        ExprView::Literal(LiteralView::Number(digits)) => {
            lemma_number_scans(s, pos, digits);
            assert(crate::scanner::is_digit(digits[0])) by {
                let whole = choose|whole: int| #[trigger]
                    crate::round_trip::has_whole_part(digits, whole);
                assert(crate::round_trip::has_whole_part(digits, whole));
            }
        },
        ExprView::Literal(LiteralView::String(text)) => {
            reveal_strlit("\"");
            lemma_string_scans(s, pos, text);
        },
        ExprView::Literal(literal) => {
            reveal_strlit("nil");
            reveal_strlit("true");
            reveal_strlit("false");
            lemma_literal_keywords();
            lemma_word_scans(s, pos, literal.shown());
        },
        ExprView::Variable(name) => {
            lemma_word_scans(s, pos, name.text);
        },
        _ => {},
    }
}

/// How the source text of a grouping is made up.
pub proof fn lemma_grouping_text(grouping: ExprView, s: Seq<char>, pos: int)
    requires
        text_at(s, pos, expr_source(ExprView::Grouping { grouping: Box::new(grouping) })),
    ensures
        expr_source(ExprView::Grouping { grouping: Box::new(grouping) }).len() == expr_source(
            grouping,
        ).len() + 2,
        expr_source(ExprView::Grouping { grouping: Box::new(grouping) })[0] == '(',
        s[pos] == '(',
        text_at(s, pos + 1, expr_source(grouping)),
        s[pos + 1 + expr_source(grouping).len()] == ')',
{
    reveal(expr_source);
    reveal_strlit("(");
    reveal_strlit(")");
    let inner = expr_source(grouping);
    lemma_text_parts(s, pos, "("@ + inner, ")"@);
    lemma_text_parts(s, pos, "("@, inner);
    lemma_text_char(s, pos, "("@, 0);
    lemma_text_char(s, pos + 1 + inner.len(), ")"@, 0);
}

pub proof fn lemma_grouping_scans(grouping: ExprView, s: Seq<char>, pos: int)
    requires
        text_at(s, pos, expr_source(ExprView::Grouping { grouping: Box::new(grouping) })),
        scans_as(s, pos + 1, source_tokens(grouping), pos + 1 + expr_source(grouping).len()),
    ensures
        scans_as(
            s,
            pos,
            source_tokens(ExprView::Grouping { grouping: Box::new(grouping) }),
            pos + expr_source(ExprView::Grouping { grouping: Box::new(grouping) }).len(),
        ),
{
    lemma_grouping_text(grouping, s, pos);
    let k = expr_source(grouping).len() as int;
    let open = seq![plain(TokenTypeDiscriminants::LeftParen, 1)];
    let close = seq![plain(TokenTypeDiscriminants::RightParen, 1)];
    lemma_paren_scans(s, pos);
    lemma_paren_scans(s, pos + 1 + k);
    lemma_scans_join(s, pos, open, pos + 1, source_tokens(grouping), pos + 1 + k);
    lemma_scans_join(s, pos, open + source_tokens(grouping), pos + 1 + k, close, pos + 2 + k);
}

/// How the source text of a unary operator is made up.
pub proof fn lemma_unary_text(operator: TokenView, right: ExprView, s: Seq<char>, pos: int)
    requires
        is_prefix_operator(operator),
        text_at(s, pos, expr_source(ExprView::Unary { operator, right: Box::new(right) })),
    ensures
        expr_source(ExprView::Unary { operator, right: Box::new(right) }).len() == expr_source(
            right,
        ).len() + 3,
        expr_source(ExprView::Unary { operator, right: Box::new(right) })[0] == '(',
        s[pos] == '(',
        operator.kind == TokenTypeDiscriminants::Bang ==> s[pos + 1] == '!',
        operator.kind == TokenTypeDiscriminants::Minus ==> s[pos + 1] == '-',
        text_at(s, pos + 2, expr_source(right)),
        s[pos + 2 + expr_source(right).len()] == ')',
{
    reveal(expr_source);
    reveal_strlit("(");
    reveal_strlit(")");
    reveal_strlit("!");
    reveal_strlit("-");
    let inner = expr_source(right);
    let sign = symbol(operator.kind);
    lemma_text_parts(s, pos, "("@ + sign + inner, ")"@);
    lemma_text_parts(s, pos, "("@ + sign, inner);
    lemma_text_parts(s, pos, "("@, sign);
    lemma_text_char(s, pos, "("@, 0);
    lemma_text_char(s, pos + 1, sign, 0);
    lemma_text_char(s, pos + 2 + inner.len(), ")"@, 0);
}

pub proof fn lemma_unary_scans(operator: TokenView, right: ExprView, s: Seq<char>, pos: int)
    requires
        is_prefix_operator(operator),
        text_at(s, pos, expr_source(ExprView::Unary { operator, right: Box::new(right) })),
        expr_source(right).len() >= 1,
        expr_source(right)[0] != '=',
        scans_as(s, pos + 2, source_tokens(right), pos + 2 + expr_source(right).len()),
    ensures
        scans_as(
            s,
            pos,
            source_tokens(ExprView::Unary { operator, right: Box::new(right) }),
            pos + expr_source(ExprView::Unary { operator, right: Box::new(right) }).len(),
        ),
{
    lemma_unary_text(operator, right, s, pos);
    let k = expr_source(right).len() as int;
    let open = seq![plain(TokenTypeDiscriminants::LeftParen, 1)];
    let sign = seq![plain(operator.kind, 1)];
    let close = seq![plain(TokenTypeDiscriminants::RightParen, 1)];
    lemma_text_char(s, pos + 2, expr_source(right), 0);
    lemma_paren_scans(s, pos);
    lemma_sign_scans(s, pos + 1, operator.kind);
    lemma_paren_scans(s, pos + 2 + k);
    lemma_scans_join(s, pos, open, pos + 1, sign, pos + 2);
    lemma_scans_join(s, pos, open + sign, pos + 2, source_tokens(right), pos + 2 + k);
    lemma_scans_join(
        s,
        pos,
        open + sign + source_tokens(right),
        pos + 2 + k,
        close,
        pos + 3 + k,
    );
    assert(open + sign =~= seq![
        plain(TokenTypeDiscriminants::LeftParen, 1),
        plain(operator.kind, 1),
    ]);
}

/// The source text of a binary or logical operator.
pub open spec fn infix_source(left: ExprView, operator: TokenView, right: ExprView) -> Seq<char> {
    "("@ + expr_source(left) + " "@ + symbol(operator.kind) + " "@ + expr_source(right) + ")"@
}

/// How the source text of a binary or logical operator is made up.
pub proof fn lemma_infix_text(
    left: ExprView,
    operator: TokenView,
    right: ExprView,
    s: Seq<char>,
    pos: int,
)
    requires
        text_at(s, pos, infix_source(left, operator, right)),
    ensures
        infix_source(left, operator, right).len() == expr_source(left).len() + expr_source(
            right,
        ).len() + symbol(operator.kind).len() + 4,
        infix_source(left, operator, right)[0] == '(',
        s[pos] == '(',
        text_at(s, pos + 1, expr_source(left)),
        s[pos + 1 + expr_source(left).len()] == ' ',
        text_at(s, pos + 1 + expr_source(left).len(), " "@ + symbol(operator.kind) + " "@),
        text_at(
            s,
            pos + 3 + expr_source(left).len() + symbol(operator.kind).len(),
            expr_source(right),
        ),
        s[pos + 3 + expr_source(left).len() + symbol(operator.kind).len() + expr_source(
            right,
        ).len()] == ')',
{
    reveal_strlit("(");
    reveal_strlit(")");
    reveal_strlit(" ");
    let a = expr_source(left);
    let b = expr_source(right);
    let sign = symbol(operator.kind);
    lemma_text_parts(s, pos, "("@ + a + " "@ + sign + " "@ + b, ")"@);
    lemma_text_parts(s, pos, "("@ + a + " "@ + sign + " "@, b);
    lemma_text_parts(s, pos, "("@ + a + " "@ + sign, " "@);
    lemma_text_parts(s, pos, "("@ + a + " "@, sign);
    lemma_text_parts(s, pos, "("@ + a, " "@);
    lemma_text_parts(s, pos, "("@, a);
    lemma_text_char(s, pos, "("@, 0);
    lemma_text_char(s, pos + 1 + a.len(), " "@, 0);
    lemma_text_char(s, pos + 3 + a.len() + sign.len() + b.len(), ")"@, 0);
    let at = pos + 1 + a.len();
    assert(s.subrange(at, at + sign.len() + 2) =~= " "@ + sign + " "@) by {
        assert forall|i: int| 0 <= i < sign.len() + 2 implies s[at + i] == (" "@ + sign
            + " "@)[i] by {
            if i == 0 {
            } else if i <= sign.len() {
                lemma_text_char(s, at + 1, sign, i - 1);
            } else {
                lemma_text_char(s, at + 1 + sign.len(), " "@, 0);
            }
        }
    }
}

pub proof fn lemma_infix_scans(
    left: ExprView,
    operator: TokenView,
    right: ExprView,
    s: Seq<char>,
    pos: int,
)
    requires
        0 <= level_of(operator.kind) <= 5,
        text_at(s, pos, infix_source(left, operator, right)),
        scans_as(s, pos + 1, source_tokens(left), pos + 1 + expr_source(left).len()),
        scans_as(
            s,
            pos + 3 + expr_source(left).len() + symbol(operator.kind).len(),
            source_tokens(right),
            pos + 3 + expr_source(left).len() + symbol(operator.kind).len() + expr_source(
                right,
            ).len(),
        ),
    ensures
        scans_as(
            s,
            pos,
            seq![plain(TokenTypeDiscriminants::LeftParen, 1)] + source_tokens(left) + seq![
                plain(operator.kind, 1),
            ] + source_tokens(right) + seq![plain(TokenTypeDiscriminants::RightParen, 1)],
            pos + infix_source(left, operator, right).len(),
        ),
{
    lemma_infix_text(left, operator, right, s, pos);
    let a = expr_source(left).len() as int;
    let b = expr_source(right).len() as int;
    let n = symbol(operator.kind).len() as int;
    let open = seq![plain(TokenTypeDiscriminants::LeftParen, 1)];
    let sign = seq![plain(operator.kind, 1)];
    let close = seq![plain(TokenTypeDiscriminants::RightParen, 1)];
    lemma_paren_scans(s, pos);
    lemma_operator_scans(s, pos + 1 + a, operator.kind);
    lemma_paren_scans(s, pos + 3 + a + n + b);
    lemma_scans_join(s, pos, open, pos + 1, source_tokens(left), pos + 1 + a);
    lemma_scans_join(s, pos, open + source_tokens(left), pos + 1 + a, sign, pos + 3 + a + n);
    lemma_scans_join(
        s,
        pos,
        open + source_tokens(left) + sign,
        pos + 3 + a + n,
        source_tokens(right),
        pos + 3 + a + n + b,
    );
    lemma_scans_join(
        s,
        pos,
        open + source_tokens(left) + sign + source_tokens(right),
        pos + 3 + a + n + b,
        close,
        pos + 4 + a + n + b,
    );
}

/// How the source text of an assignment is made up.
pub proof fn lemma_assign_text(name: TokenView, value: ExprView, s: Seq<char>, pos: int)
    requires
        text_at(s, pos, expr_source(ExprView::Assign { name, value: Box::new(value) })),
    ensures
        expr_source(ExprView::Assign { name, value: Box::new(value) }).len() == name.text.len()
            + expr_source(value).len() + 5,
        expr_source(ExprView::Assign { name, value: Box::new(value) })[0] == '(',
        s[pos] == '(',
        text_at(s, pos + 1, name.text),
        s[pos + 1 + name.text.len()] == ' ',
        s[pos + 2 + name.text.len()] == '=',
        s[pos + 3 + name.text.len()] == ' ',
        text_at(s, pos + 4 + name.text.len(), expr_source(value)),
        s[pos + 4 + name.text.len() + expr_source(value).len()] == ')',
{
    reveal(expr_source);
    reveal_strlit("(");
    reveal_strlit(")");
    reveal_strlit(" = ");
    let inner = expr_source(value);
    let w = name.text.len() as int;
    lemma_text_parts(s, pos, "("@ + name.text + " = "@ + inner, ")"@);
    lemma_text_parts(s, pos, "("@ + name.text + " = "@, inner);
    lemma_text_parts(s, pos, "("@ + name.text, " = "@);
    lemma_text_parts(s, pos, "("@, name.text);
    lemma_text_char(s, pos, "("@, 0);
    lemma_text_char(s, pos + 1 + w, " = "@, 0);
    lemma_text_char(s, pos + 1 + w, " = "@, 1);
    lemma_text_char(s, pos + 1 + w, " = "@, 2);
    lemma_text_char(s, pos + 4 + w + inner.len(), ")"@, 0);
}

pub proof fn lemma_assign_scans(name: TokenView, value: ExprView, s: Seq<char>, pos: int)
    requires
        is_name(name),
        text_at(s, pos, expr_source(ExprView::Assign { name, value: Box::new(value) })),
        scans_as(
            s,
            pos + 4 + name.text.len(),
            source_tokens(value),
            pos + 4 + name.text.len() + expr_source(value).len(),
        ),
    ensures
        scans_as(
            s,
            pos,
            source_tokens(ExprView::Assign { name, value: Box::new(value) }),
            pos + expr_source(ExprView::Assign { name, value: Box::new(value) }).len(),
        ),
{
    lemma_assign_text(name, value, s, pos);
    let k = expr_source(value).len() as int;
    let w = name.text.len() as int;
    let open = seq![plain(TokenTypeDiscriminants::LeftParen, 1)];
    let target = seq![worded(TokenTypeDiscriminants::Identifier, name.text, 1)];
    let equal = seq![plain(TokenTypeDiscriminants::Equal, 1)];
    let close = seq![plain(TokenTypeDiscriminants::RightParen, 1)];
    lemma_paren_scans(s, pos);
    lemma_word_scans(s, pos + 1, name.text);
    lemma_short_operator_scans(s, pos + 1 + w, TokenTypeDiscriminants::Equal);
    lemma_paren_scans(s, pos + 4 + w + k);
    lemma_scans_join(s, pos, open, pos + 1, target, pos + 1 + w);
    lemma_scans_join(s, pos, open + target, pos + 1 + w, equal, pos + 4 + w);
    lemma_scans_join(
        s,
        pos,
        open + target + equal,
        pos + 4 + w,
        source_tokens(value),
        pos + 4 + w + k,
    );
    lemma_scans_join(
        s,
        pos,
        open + target + equal + source_tokens(value),
        pos + 4 + w + k,
        close,
        pos + 5 + w + k,
    );
    assert(open + target + equal =~= seq![
        plain(TokenTypeDiscriminants::LeftParen, 1),
        worded(TokenTypeDiscriminants::Identifier, name.text, 1),
        plain(TokenTypeDiscriminants::Equal, 1),
    ]);
}

/// Where argument `i` of a call begins in the source text of its
/// arguments.
pub open spec fn argument_place(arguments: Seq<ExprView>, i: int) -> int {
    if i <= 0 {
        0
    } else {
        arguments_source(arguments, i).len() as int + 2
    }
}

/// How the source text of the arguments of a call is made up.
pub proof fn lemma_argument_text(
    arguments: Seq<ExprView>,
    count: int,
    i: int,
    s: Seq<char>,
    start: int,
)
    requires
        0 <= i < count <= arguments.len(),
        text_at(s, start, arguments_source(arguments, count)),
    ensures
        text_at(s, start + argument_place(arguments, i), expr_source(arguments[i])),
        argument_place(arguments, i) + expr_source(arguments[i]).len() == arguments_source(
            arguments,
            i + 1,
        ).len(),
        arguments_source(arguments, i + 1).len() <= arguments_source(arguments, count).len(),
        i + 1 < count ==> s[start + arguments_source(arguments, i + 1).len()] == ',' && s[start
            + arguments_source(arguments, i + 1).len() + 1] == ' ' && arguments_source(
            arguments,
            i + 1,
        ).len() + 2 <= arguments_source(arguments, count).len(),
    decreases count,
{
    reveal(arguments_source);
    reveal(expr_source);
    reveal_strlit(", ");
    if count == 1 {
    } else {
        let before = arguments_source(arguments, count - 1);
        let last = expr_source(arguments[count - 1]);
        lemma_text_parts(s, start, before + ", "@, last);
        lemma_text_parts(s, start, before, ", "@);
        if i == count - 1 {
        } else {
            lemma_argument_text(arguments, count - 1, i, s, start);
            if i + 1 == count - 1 {
                lemma_text_char(s, start + before.len(), ", "@, 0);
                lemma_text_char(s, start + before.len(), ", "@, 1);
            }
        }
    }
}

/// The arguments of a call are scanned into their tokens, where each of
/// them is.
pub proof fn lemma_arguments_scan(arguments: Seq<ExprView>, count: int, s: Seq<char>, start: int)
    requires
        1 <= count <= arguments.len(),
        text_at(s, start, arguments_source(arguments, arguments.len() as int)),
        forall|j: int|
            0 <= j < arguments.len() ==> scans_as(
                s,
                start + argument_place(arguments, j),
                source_tokens(#[trigger] arguments[j]),
                start + argument_place(arguments, j) + expr_source(arguments[j]).len(),
            ),
    ensures
        scans_as(
            s,
            start,
            arguments_tokens(arguments, count),
            start + arguments_source(arguments, count).len(),
        ),
    decreases count,
{
    let last = arguments[count - 1];
    assert(scans_as(
        s,
        start + argument_place(arguments, count - 1),
        source_tokens(last),
        start + argument_place(arguments, count - 1) + expr_source(last).len(),
    ));
    lemma_argument_text(arguments, arguments.len() as int, count - 1, s, start);
    if count > 1 {
        lemma_arguments_scan(arguments, count - 1, s, start);
        lemma_argument_text(arguments, arguments.len() as int, count - 2, s, start);
        let before = arguments_source(arguments, count - 1).len() as int;
        lemma_comma_scans(s, start + before);
        lemma_scans_join(
            s,
            start,
            arguments_tokens(arguments, count - 1),
            start + before,
            seq![plain(TokenTypeDiscriminants::Comma, 1)],
            start + before + 2,
        );
        lemma_scans_join(
            s,
            start,
            arguments_tokens(arguments, count - 1) + seq![plain(TokenTypeDiscriminants::Comma, 1)],
            start + before + 2,
            source_tokens(last),
            start + before + 2 + expr_source(last).len(),
        );
    }
}

/// How the source text of a call is made up.
pub proof fn lemma_call_text(
    callee: ExprView,
    paren: TokenView,
    arguments: Seq<ExprView>,
    s: Seq<char>,
    pos: int,
)
    requires
        text_at(s, pos, expr_source(ExprView::Call { callee: Box::new(callee), paren, arguments })),
    ensures
        expr_source(ExprView::Call { callee: Box::new(callee), paren, arguments }).len()
            == expr_source(callee).len() + arguments_source(
            arguments,
            arguments.len() as int,
        ).len() + 4,
        expr_source(ExprView::Call { callee: Box::new(callee), paren, arguments })[0] == '(',
        s[pos] == '(',
        text_at(s, pos + 1, expr_source(callee)),
        s[pos + 1 + expr_source(callee).len()] == '(',
        text_at(
            s,
            pos + 2 + expr_source(callee).len(),
            arguments_source(arguments, arguments.len() as int),
        ),
        s[pos + 2 + expr_source(callee).len() + arguments_source(
            arguments,
            arguments.len() as int,
        ).len()] == ')',
        s[pos + 3 + expr_source(callee).len() + arguments_source(
            arguments,
            arguments.len() as int,
        ).len()] == ')',
{
    reveal(expr_source);
    reveal(arguments_source);
    reveal_strlit("(");
    reveal_strlit("))");
    let c = expr_source(callee);
    let list = arguments_source(arguments, arguments.len() as int);
    lemma_text_parts(s, pos, "("@ + c + "("@ + list, "))"@);
    lemma_text_parts(s, pos, "("@ + c + "("@, list);
    lemma_text_parts(s, pos, "("@ + c, "("@);
    lemma_text_parts(s, pos, "("@, c);
    lemma_text_char(s, pos, "("@, 0);
    lemma_text_char(s, pos + 1 + c.len(), "("@, 0);
    lemma_text_char(s, pos + 2 + c.len() + list.len(), "))"@, 0);
    lemma_text_char(s, pos + 2 + c.len() + list.len(), "))"@, 1);
}

pub proof fn lemma_call_scans(
    callee: ExprView,
    paren: TokenView,
    arguments: Seq<ExprView>,
    s: Seq<char>,
    pos: int,
)
    requires
        text_at(s, pos, expr_source(ExprView::Call { callee: Box::new(callee), paren, arguments })),
        scans_as(s, pos + 1, source_tokens(callee), pos + 1 + expr_source(callee).len()),
        forall|j: int|
            0 <= j < arguments.len() ==> scans_as(
                s,
                pos + 2 + expr_source(callee).len() + argument_place(arguments, j),
                source_tokens(#[trigger] arguments[j]),
                pos + 2 + expr_source(callee).len() + argument_place(arguments, j) + expr_source(
                    arguments[j],
                ).len(),
            ),
    ensures
        scans_as(
            s,
            pos,
            source_tokens(ExprView::Call { callee: Box::new(callee), paren, arguments }),
            pos + expr_source(ExprView::Call { callee: Box::new(callee), paren, arguments }).len(),
        ),
{
    lemma_call_text(callee, paren, arguments, s, pos);
    let c = expr_source(callee).len() as int;
    let count = arguments.len() as int;
    let n = arguments_source(arguments, count).len() as int;
    let open = seq![plain(TokenTypeDiscriminants::LeftParen, 1)];
    let close = seq![plain(TokenTypeDiscriminants::RightParen, 1)];
    let called = source_tokens(callee);
    let listed = arguments_tokens(arguments, count);
    let start = pos + 2 + c;
    lemma_paren_scans(s, pos);
    lemma_paren_scans(s, pos + 1 + c);
    lemma_paren_scans(s, start + n);
    lemma_paren_scans(s, start + n + 1);
    if count > 0 {
        lemma_arguments_scan(arguments, count, s, start);
    } else {
        reveal(arguments_source);
        reveal(scans_as);
        assert(listed =~= Seq::<TokenView>::empty());
        match kinds_and_texts(lex_from(s, start, 1)) {
            Some(more) => {
                assert(Seq::<TokenView>::empty() + more =~= more);
            },
            None => {},
        }
    }
    lemma_scans_join(s, pos, open, pos + 1, called, pos + 1 + c);
    lemma_scans_join(s, pos, open + called, pos + 1 + c, open, start);
    lemma_scans_join(s, pos, open + called + open, start, listed, start + n);
    lemma_scans_join(s, pos, open + called + open + listed, start + n, close, start + n + 1);
    lemma_scans_join(
        s,
        pos,
        open + called + open + listed + close,
        start + n + 1,
        close,
        start + n + 2,
    );
    assert(open + called + open + listed + close + close =~= open + called + open + listed
        + seq![
        plain(TokenTypeDiscriminants::RightParen, 1),
        plain(TokenTypeDiscriminants::RightParen, 1),
    ]);
}

/// The source text of an expression is scanned into the tokens that
/// [`source_tokens`] gives.
pub proof fn lemma_source_scans(e: ExprView, s: Seq<char>, pos: int)
    requires
        printable(e),
        text_at(s, pos, expr_source(e)),
        closed_at(s, pos + expr_source(e).len()),
    ensures
        expr_source(e).len() >= 1,
        expr_source(e)[0] != '=',
        scans_as(s, pos, source_tokens(e), pos + expr_source(e).len()),
    decreases e,
{
    match e {
        ExprView::Grouping { grouping } => {
            lemma_grouping_text(*grouping, s, pos);
            lemma_source_scans(*grouping, s, pos + 1);
            lemma_grouping_scans(*grouping, s, pos);
        },
        ExprView::Unary { operator, right } => {
            lemma_unary_text(operator, *right, s, pos);
            lemma_source_scans(*right, s, pos + 2);
            lemma_unary_scans(operator, *right, s, pos);
        },
        ExprView::Binary { left, operator, right } => {
            lemma_infix_source(e);
            lemma_infix_text(*left, operator, *right, s, pos);
            lemma_source_scans(*left, s, pos + 1);
            lemma_source_scans(
                *right,
                s,
                pos + 3 + expr_source(*left).len() + symbol(operator.kind).len(),
            );
            lemma_infix_scans(*left, operator, *right, s, pos);
        },
        ExprView::Logical { left, operator, right } => {
            lemma_infix_source(e);
            lemma_infix_text(*left, operator, *right, s, pos);
            lemma_source_scans(*left, s, pos + 1);
            lemma_source_scans(
                *right,
                s,
                pos + 3 + expr_source(*left).len() + symbol(operator.kind).len(),
            );
            lemma_infix_scans(*left, operator, *right, s, pos);
        },
        ExprView::Assign { name, value } => {
            lemma_assign_text(name, *value, s, pos);
            lemma_source_scans(*value, s, pos + 4 + name.text.len());
            lemma_assign_scans(name, *value, s, pos);
        },
        ExprView::Call { callee, paren, arguments } => {
            lemma_call_text(*callee, paren, arguments, s, pos);
            lemma_source_scans(*callee, s, pos + 1);
            let start = pos + 2 + expr_source(*callee).len();
            assert forall|j: int| 0 <= j < arguments.len() implies scans_as(
                s,
                start + argument_place(arguments, j),
                source_tokens(#[trigger] arguments[j]),
                start + argument_place(arguments, j) + expr_source(arguments[j]).len(),
            ) by {
                lemma_argument_text(arguments, arguments.len() as int, j, s, start);
                lemma_source_scans(arguments[j], s, start + argument_place(arguments, j));
            }
            lemma_call_scans(*callee, paren, arguments, s, pos);
        },
        _ => {
            lemma_atom_scans(e, s, pos);
        },
    }
}

/// The source text of a binary or logical operator is its operands with the
/// operator between them, in parentheses.
pub proof fn lemma_infix_source(e: ExprView)
    ensures
        e matches ExprView::Binary { left, operator, right } ==> expr_source(e) == infix_source(
            *left,
            operator,
            *right,
        ),
        e matches ExprView::Logical { left, operator, right } ==> expr_source(e) == infix_source(
            *left,
            operator,
            *right,
        ),
{
    reveal(expr_source);
}

/// Whether an expression can begin with a token of this kind.
pub open spec fn begins_expression(kind: TokenTypeDiscriminants) -> bool {
    kind == TokenTypeDiscriminants::False || kind == TokenTypeDiscriminants::True || kind
        == TokenTypeDiscriminants::Nil || kind == TokenTypeDiscriminants::Number || kind
        == TokenTypeDiscriminants::String || kind == TokenTypeDiscriminants::Identifier || kind
        == TokenTypeDiscriminants::LeftParen
}

/// A primary expression begins with a token with which an expression can
/// begin.
pub proof fn lemma_primary_begins(tokens: Seq<TokenView>, pos: int)
    ensures
        spec_primary(tokens, pos) is Done ==> begins_expression(kind_at(tokens, pos)),
{
    reveal(spec_primary);
}

/// An expression, a semicolon and the end of input are a program of one
/// statement, which is that expression.
pub proof fn lemma_one_statement(tokens: Seq<TokenView>, node: ExprView, next: int)
    requires
        begins_expression(kind_at(tokens, 0)),
        spec_expression(tokens, 0) == (Parsed::Done { node, next }),
        0 < next,
        next + 1 <= tokens.len(),
        kind_at(tokens, next) == TokenTypeDiscriminants::Semicolon,
        kind_at(tokens, next + 1) == TokenTypeDiscriminants::Eof,
    ensures
        spec_program(tokens, 0).errors.len() == 0,
        spec_program(tokens, 0).statements == seq![StmtView::Expression(node)],
{
    reveal(spec_program);
    reveal(spec_declaration);
    reveal(spec_function);
    reveal(spec_statement);
    reveal(spec_block_items);
    reveal(spec_if_statement);
    reveal(spec_while_statement);
    reveal(spec_for_statement);
    reveal(spec_print_statement);
    reveal(spec_return_statement);
    reveal(spec_expression_statement);
    let statement = StmtView::Expression(node);
    assert(spec_statement(tokens, 0).result == Ok::<StmtView, ParseError>(statement));
    assert(spec_statement(tokens, 0).next == next + 1);
    assert(spec_statement(tokens, 0).errors =~= Seq::<ParseError>::empty());
    assert(spec_declaration(tokens, 0).statement == Some(statement));
    assert(spec_declaration(tokens, 0).next == next + 1);
    let rest = spec_program(tokens, next + 1);
    assert(rest.statements =~= Seq::<StmtView>::empty());
    assert(rest.errors =~= Seq::<ParseError>::empty());
    assert(spec_program(tokens, 0).statements =~= seq![statement]);
    assert(spec_program(tokens, 0).errors =~= Seq::<ParseError>::empty());
}

/// The source text of an expression and a semicolon are scanned into the
/// tokens of the expression, a semicolon and the end of input.
pub proof fn lemma_statement_scans(e: ExprView)
    requires
        printable(e),
    ensures
        lex(expr_source(e) + ";"@) matches Ok(tokens) && (tokens.len() == source_tokens(e).len()
            + 2 && spelled(tokens, 0, source_tokens(e)) && kind_at(
            tokens,
            source_tokens(e).len() as int,
        ) == TokenTypeDiscriminants::Semicolon && kind_at(tokens, source_tokens(e).len() as int + 1)
            == TokenTypeDiscriminants::Eof),
{
    reveal_strlit(";");
    let text = expr_source(e);
    let s = text + ";"@;
    let n = text.len() as int;
    assert(s.subrange(0, n) =~= text);
    assert(s[n] == ';');
    lemma_source_scans(e, s, 0);
    lemma_token_scans(s, n, plain(TokenTypeDiscriminants::Semicolon, 1), n + 1);
    let want = source_tokens(e);
    let semicolon = seq![plain(TokenTypeDiscriminants::Semicolon, 1)];
    let end = seq![plain(TokenTypeDiscriminants::Eof, 1)];
    lemma_scans_join(s, 0, want, n, semicolon, n + 1);
    reveal(scans_as);
    assert(tokens_on_line(end, 1) =~= end);
    assert(kinds_and_texts(lex_from(s, n + 1, 1)) == Some(end));
    assert(kinds_and_texts(lex(s)) == Some(want + semicolon + end));
    let tokens = lex(s)->Ok_0;
    let all = want + semicolon + end;
    assert(tokens_on_line(tokens, 1) == all);
    assert(tokens.len() == all.len());
    reveal(spelled);
    assert forall|i: int| 0 <= i < want.len() implies #[trigger] want[i] == token_on_line(
        tokens[0 + i],
        1,
    ) by {
        assert(tokens_on_line(tokens, 1)[i] == token_on_line(tokens[i], 1));
        assert(all[i] == want[i]);
    }
    let k = want.len() as int;
    assert(tokens_on_line(tokens, 1)[k] == token_on_line(tokens[k], 1));
    assert(all[k] == semicolon[0]);
    assert(tokens_on_line(tokens, 1)[k + 1] == token_on_line(tokens[k + 1], 1));
    assert(all[k + 1] == end[0]);
}

/// The source text of an expression reads back. For every expression that
/// is made of tokens as the scanner makes them ([`printable`]; every
/// expression that the parser reads from scanned tokens is): its source
/// text with a semicolon is scanned without refusal and parsed without
/// error into one statement, an expression statement, whose expression is
/// the expression, up to parentheses and up to the lines of the tokens.
pub proof fn source_reads_back(e: ExprView)
    requires
        printable(e),
    ensures
        lex(expr_source(e) + ";"@) matches Ok(tokens) && (spec_program(tokens, 0).errors.len() == 0
            && spec_program(tokens, 0).statements.len() == 1 && (spec_program(
            tokens,
            0,
        ).statements[0] matches StmtView::Expression(back) && without_grouping(on_line(back, 1))
            == without_grouping(on_line(e, 1)))),
{
    lemma_statement_scans(e);
    let tokens = lex(expr_source(e) + ";"@)->Ok_0;
    let k = source_tokens(e).len() as int;
    lemma_source_tokens_parse(e, tokens, 0);
    lemma_reads(tokens, 0, e);
    let node = spec_primary(tokens, 0)->node;
    lemma_primary_begins(tokens, 0);
    lemma_primary_moves(tokens, 0);
    lemma_primary_closes(tokens, 0, node, k);
    lemma_one_statement(tokens, node, k);
    lemma_read_source_is_the_expression(e);
}

} // verus!
