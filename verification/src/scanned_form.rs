use crate::ast::{expr_source, ExprView, StmtView};
use crate::parser::{
    is_operator, join, kind_at, lemma_arguments_moves, lemma_binary_moves,
    lemma_expression_moves, lemma_operand_moves, lemma_primary_moves, max_arity, spec_arguments,
    spec_arguments_tail, spec_assignment, spec_binary, spec_binary_tail, spec_call,
    spec_call_tail, spec_expression, spec_operand, spec_primary, spec_program, spec_unary, Parsed,
};
use crate::round_trip::{has_whole_part, is_name, is_number_text, on_line, without_grouping};
use crate::scanner::{
    is_alpha, is_digit, lemma_run_len_bound, lemma_run_members, lemma_scan_advances, lex,
    lex_from, run_len, scan_at, CharClass, Scan,
};
use crate::source_form::{is_plain, is_string_text, printable, source_reads_back};
use crate::token::{TokenTypeDiscriminants, TokenView};
use vstd::prelude::*;

verus! {

/// Whether a token is as the scanner makes them: an identifier carries a
/// name that is no reserved word, a number carries digits with at most one
/// dot among them, a string carries text without a double quote, and any
/// other token carries nothing.
pub open spec fn well_made(token: TokenView) -> bool {
    if token.kind == TokenTypeDiscriminants::Identifier {
        is_name(token)
    } else if token.kind == TokenTypeDiscriminants::Number {
        is_number_text(token.text)
    } else if token.kind == TokenTypeDiscriminants::String {
        is_string_text(token.text)
    } else {
        is_plain(token)
    }
}

/// Whether every token is as the scanner makes them.
pub open spec fn all_well_made(tokens: Seq<TokenView>) -> bool {
    forall|i: int| 0 <= i < tokens.len() ==> well_made(#[trigger] tokens[i])
}

/// The token that the scanner reads at an offset is well made.
pub proof fn lemma_scan_well_made(s: Seq<char>, pos: int, line: int)
    requires
        0 <= pos < s.len(),
    ensures
        scan_at(s, pos, line) matches Scan::Token { token, next, line: after } ==> well_made(token),
{
    lemma_scan_advances(s, pos, line);
    let c = s[pos];
    if c == '"' {
        lemma_run_len_bound(s, pos + 1, CharClass::NotQuote);
        lemma_run_members(s, pos + 1, CharClass::NotQuote);
    } else if is_digit(c) {
        lemma_run_len_bound(s, pos + 1, CharClass::Digit);
        lemma_run_members(s, pos + 1, CharClass::Digit);
        let dot = pos + 1 + run_len(s, pos + 1, CharClass::Digit);
        if dot + 1 < s.len() && s[dot] == '.' && is_digit(s[dot + 1]) {
            lemma_run_len_bound(s, dot + 2, CharClass::Digit);
            lemma_run_members(s, dot + 2, CharClass::Digit);
        }
        let token = scan_at(s, pos, line)->token;
        assert(has_whole_part(token.text, dot - pos));
    } else if is_alpha(c) {
        lemma_run_len_bound(s, pos + 1, CharClass::Word);
        lemma_run_members(s, pos + 1, CharClass::Word);
    }
}

/// Every token of the tokens from an offset on is well made.
pub proof fn lemma_lex_well_made(s: Seq<char>, pos: int, line: int)
    ensures
        lex_from(s, pos, line) matches Ok(tokens) ==> all_well_made(tokens),
    decreases s.len() - pos,
{
    if 0 <= pos < s.len() {
        lemma_scan_advances(s, pos, line);
        lemma_scan_well_made(s, pos, line);
        match scan_at(s, pos, line) {
            Scan::Token { token, next, line: after } => {
                lemma_lex_well_made(s, next, after);
            },
            Scan::Skip { next, line: after } => {
                lemma_lex_well_made(s, next, after);
            },
            Scan::Failure { error } => {},
        }
    }
}

/// Whether what was read, if an expression was read, is an expression that
/// has a source text.
pub open spec fn gives_printable(parsed: Parsed<ExprView>) -> bool {
    parsed matches Parsed::Done { node, next } ==> printable(node)
}

/// Whether every expression of the list has a source text.
#[verifier::opaque]
pub open spec fn all_printable(list: Seq<ExprView>) -> bool {
    forall|i: int| 0 <= i < list.len() ==> printable(#[trigger] list[i])
}

/// Whether what was read, if arguments were read, are at most 255
/// expressions that have a source text, with a closing parenthesis last.
pub open spec fn gives_arguments(tokens: Seq<TokenView>, parsed: Parsed<Seq<ExprView>>) -> bool {
    parsed matches Parsed::Done { node, next } ==> node.len() <= max_arity() && all_printable(node)
        && 1 <= next <= tokens.len() && kind_at(tokens, next - 1)
        == TokenTypeDiscriminants::RightParen
}

/// One more expression with a source text keeps the list so.
pub proof fn lemma_all_printable_push(list: Seq<ExprView>, e: ExprView)
    requires
        all_printable(list),
        printable(e),
    ensures
        all_printable(list.push(e)),
{
    reveal(all_printable);
}

/// A call of an expression with a source text, on arguments with a source
/// text, has a source text.
pub proof fn lemma_call_printable(callee: ExprView, paren: TokenView, arguments: Seq<ExprView>)
    requires
        printable(callee),
        well_made(paren),
        paren.kind == TokenTypeDiscriminants::RightParen,
        arguments.len() <= max_arity(),
        all_printable(arguments),
    ensures
        printable(ExprView::Call { callee: Box::new(callee), paren, arguments }),
{
    reveal(all_printable);
}

/// An operator applied to expressions with a source text has a source text.
pub proof fn lemma_join_printable(level: int, left: ExprView, operator: TokenView, right: ExprView)
    requires
        0 <= level <= 5,
        is_operator(level, operator.kind),
        well_made(operator),
        printable(left),
        printable(right),
    ensures
        printable(join(level, left, operator, right)),
{
}

pub proof fn lemma_primary_printable(tokens: Seq<TokenView>, pos: int)
    requires
        0 <= pos <= tokens.len(),
        all_well_made(tokens),
    ensures
        gives_printable(spec_primary(tokens, pos)),
    decreases tokens.len() - pos, 14int,
{
    reveal(spec_primary);
    reveal(spec_expression);
    if kind_at(tokens, pos) == TokenTypeDiscriminants::LeftParen {
        lemma_expression_printable(tokens, pos + 1);
    } else if pos < tokens.len() {
        assert(well_made(tokens[pos]));
    }
}

pub proof fn lemma_arguments_tail_printable(
    tokens: Seq<TokenView>,
    before: Seq<ExprView>,
    pos: int,
)
    requires
        0 <= pos <= tokens.len(),
        all_well_made(tokens),
        all_printable(before),
    ensures
        gives_arguments(tokens, spec_arguments_tail(tokens, before, pos)),
    decreases tokens.len() - pos, 40int,
{
    reveal(spec_arguments_tail);
    reveal(spec_expression);
    if before.len() < max_arity() {
        lemma_expression_moves(tokens, pos);
        lemma_expression_printable(tokens, pos);
        match spec_expression(tokens, pos) {
            Parsed::Done { node, next } => {
                lemma_all_printable_push(before, node);
                if kind_at(tokens, next) == TokenTypeDiscriminants::Comma {
                    lemma_arguments_tail_printable(tokens, before.push(node), next + 1);
                }
            },
            Parsed::Failed { error, at } => {},
        }
    }
}

pub proof fn lemma_arguments_printable(tokens: Seq<TokenView>, pos: int)
    requires
        0 <= pos <= tokens.len(),
        all_well_made(tokens),
    ensures
        gives_arguments(tokens, spec_arguments(tokens, pos)),
    decreases tokens.len() - pos, 41int,
{
    reveal(spec_arguments);
    reveal(spec_arguments_tail);
    assert(all_printable(Seq::<ExprView>::empty())) by {
        reveal(all_printable);
    }
    if kind_at(tokens, pos) != TokenTypeDiscriminants::RightParen {
        lemma_arguments_tail_printable(tokens, Seq::empty(), pos);
    }
}

pub proof fn lemma_call_tail_printable(tokens: Seq<TokenView>, callee: ExprView, pos: int)
    requires
        0 <= pos <= tokens.len(),
        all_well_made(tokens),
        printable(callee),
    ensures
        gives_printable(spec_call_tail(tokens, callee, pos)),
    decreases tokens.len() - pos, 42int,
{
    reveal(spec_call_tail);
    reveal(spec_arguments);
    if kind_at(tokens, pos) == TokenTypeDiscriminants::LeftParen {
        lemma_arguments_moves(tokens, pos + 1);
        lemma_arguments_printable(tokens, pos + 1);
        match spec_arguments(tokens, pos + 1) {
            Parsed::Done { node, next } => {
                let paren = tokens[next - 1];
                assert(well_made(paren));
                lemma_call_printable(callee, paren, node);
                lemma_call_tail_printable(
                    tokens,
                    ExprView::Call { callee: Box::new(callee), paren, arguments: node },
                    next,
                );
            },
            Parsed::Failed { error, at } => {},
        }
    }
}

pub proof fn lemma_call_expression_printable(tokens: Seq<TokenView>, pos: int)
    requires
        0 <= pos <= tokens.len(),
        all_well_made(tokens),
    ensures
        gives_printable(spec_call(tokens, pos)),
    decreases tokens.len() - pos, 15int,
{
    reveal(spec_call);
    reveal(spec_primary);
    reveal(spec_call_tail);
    lemma_primary_moves(tokens, pos);
    lemma_primary_printable(tokens, pos);
    match spec_primary(tokens, pos) {
        Parsed::Done { node, next } => {
            lemma_call_tail_printable(tokens, node, next);
        },
        Parsed::Failed { error, at } => {},
    }
}

pub proof fn lemma_unary_printable(tokens: Seq<TokenView>, pos: int)
    requires
        0 <= pos <= tokens.len(),
        all_well_made(tokens),
    ensures
        gives_printable(spec_unary(tokens, pos)),
    decreases tokens.len() - pos, 16int,
{
    reveal(spec_unary);
    reveal(spec_call);
    let kind = kind_at(tokens, pos);
    if kind == TokenTypeDiscriminants::Bang || kind == TokenTypeDiscriminants::Minus {
        assert(well_made(tokens[pos]));
        lemma_unary_printable(tokens, pos + 1);
    } else {
        lemma_call_expression_printable(tokens, pos);
    }
}

pub proof fn lemma_operand_printable(level: int, tokens: Seq<TokenView>, pos: int)
    requires
        0 <= pos <= tokens.len(),
        0 <= level <= 5,
        all_well_made(tokens),
    ensures
        gives_printable(spec_operand(level, tokens, pos)),
    decreases tokens.len() - pos, 29 - 2 * level,
{
    reveal(spec_operand);
    reveal(spec_binary);
    reveal(spec_unary);
    if level < 5 {
        lemma_binary_printable(level + 1, tokens, pos);
    } else {
        lemma_unary_printable(tokens, pos);
    }
}

pub proof fn lemma_binary_tail_printable(
    level: int,
    tokens: Seq<TokenView>,
    left: ExprView,
    pos: int,
)
    requires
        0 <= pos <= tokens.len(),
        0 <= level <= 5,
        all_well_made(tokens),
        printable(left),
    ensures
        gives_printable(spec_binary_tail(level, tokens, left, pos)),
    decreases tokens.len() - pos, 43int,
{
    reveal(spec_binary_tail);
    reveal(spec_operand);
    if is_operator(level, kind_at(tokens, pos)) {
        lemma_operand_moves(level, tokens, pos + 1);
        lemma_operand_printable(level, tokens, pos + 1);
        match spec_operand(level, tokens, pos + 1) {
            Parsed::Done { node, next } => {
                assert(well_made(tokens[pos]));
                lemma_join_printable(level, left, tokens[pos], node);
                lemma_binary_tail_printable(
                    level,
                    tokens,
                    join(level, left, tokens[pos], node),
                    next,
                );
            },
            Parsed::Failed { error, at } => {},
        }
    }
}

pub proof fn lemma_binary_printable(level: int, tokens: Seq<TokenView>, pos: int)
    requires
        0 <= pos <= tokens.len(),
        0 <= level <= 5,
        all_well_made(tokens),
    ensures
        gives_printable(spec_binary(level, tokens, pos)),
    decreases tokens.len() - pos, 30 - 2 * level,
{
    reveal(spec_binary);
    reveal(spec_operand);
    reveal(spec_binary_tail);
    lemma_operand_moves(level, tokens, pos);
    lemma_operand_printable(level, tokens, pos);
    match spec_operand(level, tokens, pos) {
        Parsed::Done { node, next } => {
            lemma_binary_tail_printable(level, tokens, node, next);
        },
        Parsed::Failed { error, at } => {},
    }
}

pub proof fn lemma_assignment_printable(tokens: Seq<TokenView>, pos: int)
    requires
        0 <= pos <= tokens.len(),
        all_well_made(tokens),
    ensures
        gives_printable(spec_assignment(tokens, pos)),
    decreases tokens.len() - pos, 32int,
{
    reveal(spec_assignment);
    reveal(spec_binary);
    lemma_binary_moves(0, tokens, pos);
    lemma_binary_printable(0, tokens, pos);
    match spec_binary(0, tokens, pos) {
        Parsed::Done { node, next } => {
            if kind_at(tokens, next) == TokenTypeDiscriminants::Equal {
                lemma_assignment_printable(tokens, next + 1);
            }
        },
        Parsed::Failed { error, at } => {},
    }
}

/// Every expression that the grammar reads from well-made tokens has a
/// source text.
pub proof fn lemma_expression_printable(tokens: Seq<TokenView>, pos: int)
    requires
        0 <= pos <= tokens.len(),
        all_well_made(tokens),
    ensures
        gives_printable(spec_expression(tokens, pos)),
    decreases tokens.len() - pos, 33int,
{
    reveal(spec_expression);
    reveal(spec_assignment);
    lemma_assignment_printable(tokens, pos);
}

/// Where no token stands, no unary expression is read.
pub proof fn lemma_unary_needs_a_token(tokens: Seq<TokenView>, pos: int)
    requires
        !(0 <= pos < tokens.len()),
    ensures
        spec_unary(tokens, pos) is Failed,
{
    reveal(spec_unary);
    reveal(spec_call);
    reveal(spec_primary);
    assert(kind_at(tokens, pos) == TokenTypeDiscriminants::Eof);
    assert(spec_primary(tokens, pos) is Failed);
    assert(spec_call(tokens, pos) is Failed);
}

/// Where no token stands, no operand and no operation is read.
pub proof fn lemma_operand_needs_a_token(level: int, tokens: Seq<TokenView>, pos: int)
    requires
        !(0 <= pos < tokens.len()),
        0 <= level <= 5,
    ensures
        spec_operand(level, tokens, pos) is Failed,
        spec_binary(level, tokens, pos) is Failed,
    decreases 5 - level,
{
    reveal(spec_operand);
    reveal(spec_binary);
    reveal(spec_unary);
    if level < 5 {
        lemma_operand_needs_a_token(level + 1, tokens, pos);
    } else {
        lemma_unary_needs_a_token(tokens, pos);
    }
    assert(spec_operand(level, tokens, pos) is Failed);
}

/// Where no token stands, no expression is read.
pub proof fn lemma_expression_needs_a_token(tokens: Seq<TokenView>, pos: int)
    requires
        !(0 <= pos < tokens.len()),
    ensures
        spec_expression(tokens, pos) is Failed,
{
    reveal(spec_expression);
    reveal(spec_assignment);
    reveal(spec_binary);
    lemma_operand_needs_a_token(0, tokens, pos);
}

/// Every expression that the parser reads from the tokens of a source has a
/// source text: it is made of tokens as the scanner makes them, each where
/// the parser puts its kind.
pub proof fn parsed_expressions_are_printable(source: Seq<char>, pos: int)
    ensures
        lex(source) matches Ok(tokens) ==> (spec_expression(tokens, pos) matches Parsed::Done {
            node,
            next,
        } ==> printable(node)),
{
    lemma_lex_well_made(source, 0, 1);
    if let Ok(tokens) = lex(source) {
        if 0 <= pos < tokens.len() {
            lemma_expression_printable(tokens, pos);
        } else {
            lemma_expression_needs_a_token(tokens, pos);
        }
    }
}

/// From the tokens of a source, the parser reads an expression, wherever it
/// does, whose source text reads back as that expression. The text with a
/// semicolon is scanned without refusal and parsed without error into one
/// statement, an expression statement, whose expression is the one that was
/// read, up to parentheses and up to the lines of the tokens.
pub proof fn parsed_source_reads_back(source: Seq<char>, pos: int, e: ExprView)
    requires
        lex(source) matches Ok(scanned) && (spec_expression(scanned, pos) matches Parsed::Done {
            node,
            next,
        } && node == e),
    ensures
        lex(expr_source(e) + ";"@) matches Ok(tokens) && (spec_program(tokens, 0).errors.len() == 0
            && spec_program(tokens, 0).statements.len() == 1 && (spec_program(
            tokens,
            0,
        ).statements[0] matches StmtView::Expression(back) && without_grouping(on_line(back, 1))
            == without_grouping(on_line(e, 1)))),
{
    parsed_expressions_are_printable(source, pos);
    source_reads_back(e);
}

} // verus!
