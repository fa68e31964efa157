use crate::ast::{
    expr_views, lemma_block_view, lemma_call_view, lemma_function_view, stmt_views, Expr,
    ExprView, Literal, LiteralView, Stmt, StmtView,
};
use crate::error::ParseError;
use crate::token::{token_views, Token, TokenTypeDiscriminants, TokenView};
use vstd::prelude::*;

verus! {

/// The kind of the token at `pos`; past the last token it is the end of input.
pub open spec fn kind_at(tokens: Seq<TokenView>, pos: int) -> TokenTypeDiscriminants {
    if 0 <= pos < tokens.len() {
        tokens[pos].kind
    } else {
        TokenTypeDiscriminants::Eof
    }
}

/// The line of the token at `pos`; past the last token, the line of the last
/// token, and 1 where there is none.
pub open spec fn line_at(tokens: Seq<TokenView>, pos: int) -> usize {
    if 0 <= pos < tokens.len() {
        tokens[pos].line as usize
    } else if tokens.len() > 0 {
        tokens.last().line as usize
    } else {
        1
    }
}

/// The error of a token of kind `expected` that is not at `pos`.
pub open spec fn missing(
    tokens: Seq<TokenView>,
    pos: int,
    expected: TokenTypeDiscriminants,
) -> ParseError {
    ParseError::ExpectedToken {
        expected,
        found: kind_at(tokens, pos),
        line: line_at(tokens, pos),
    }
}

/// Whether `next` lies after `pos` and inside the tokens or at their end.
pub open spec fn ahead(tokens: Seq<TokenView>, pos: int, next: int) -> bool {
    pos < next <= tokens.len()
}

/// What the grammar makes of the tokens from one position on: a node and the
/// position after it, or an error and the position at which it was found.
pub enum Parsed<T> {
    Done { node: T, next: int },
    Failed { error: ParseError, at: int },
}

/// The error of a case that never arises.
pub open spec fn stuck_error() -> ParseError {
    ParseError::UnknownTokenType
}

/// What the definitions below give where a part of the grammar did not move
/// ahead, or where there is no such part. No part ever stands still: see
/// [`lemma_expression_moves`], [`lemma_statement_moves`] and
/// [`lemma_declaration_moves`]. The case is there so that the definitions
/// are well-founded, and for no other reason.
pub open spec fn stuck<T>(pos: int) -> Parsed<T> {
    Parsed::Failed { error: stuck_error(), at: pos }
}

/// The most arguments a call can have, and the most parameters a function.
pub open spec fn max_arity() -> int {
    255
}

/// The binary operators by precedence level, from 0, the loosest, to 5.
pub open spec fn is_operator(level: int, kind: TokenTypeDiscriminants) -> bool {
    if level == 0 {
        kind == TokenTypeDiscriminants::Or
    } else if level == 1 {
        kind == TokenTypeDiscriminants::And
    } else if level == 2 {
        kind == TokenTypeDiscriminants::BangEqual || kind == TokenTypeDiscriminants::EqualEqual
    } else if level == 3 {
        kind == TokenTypeDiscriminants::Greater || kind == TokenTypeDiscriminants::GreaterEqual
            || kind == TokenTypeDiscriminants::Less || kind == TokenTypeDiscriminants::LessEqual
    } else if level == 4 {
        kind == TokenTypeDiscriminants::Minus || kind == TokenTypeDiscriminants::Plus
    } else {
        kind == TokenTypeDiscriminants::Slash || kind == TokenTypeDiscriminants::Star
    }
}

/// The node of a binary operator of `level`: `or` and `and` are logical, the
/// others binary.
pub open spec fn join(level: int, left: ExprView, operator: TokenView, right: ExprView) -> ExprView {
    if level <= 1 {
        ExprView::Logical { left: Box::new(left), operator, right: Box::new(right) }
    } else {
        ExprView::Binary { left: Box::new(left), operator, right: Box::new(right) }
    }
}

/// primary := "true" | "false" | "nil" | NUMBER | STRING | "(" expr ")" | IDENT
#[verifier::opaque]
pub open spec fn spec_primary(tokens: Seq<TokenView>, pos: int) -> Parsed<ExprView>
    decreases tokens.len() - pos, 14int,
{
    let kind = kind_at(tokens, pos);
    if kind == TokenTypeDiscriminants::False {
        Parsed::Done { node: ExprView::Literal(LiteralView::Boolean(false)), next: pos + 1 }
    } else if kind == TokenTypeDiscriminants::True {
        Parsed::Done { node: ExprView::Literal(LiteralView::Boolean(true)), next: pos + 1 }
    } else if kind == TokenTypeDiscriminants::Nil {
        Parsed::Done { node: ExprView::Literal(LiteralView::Nil), next: pos + 1 }
    } else if kind == TokenTypeDiscriminants::Number {
        Parsed::Done {
            node: ExprView::Literal(LiteralView::Number(tokens[pos].text)),
            next: pos + 1,
        }
    } else if kind == TokenTypeDiscriminants::String {
        Parsed::Done {
            node: ExprView::Literal(LiteralView::String(tokens[pos].text)),
            next: pos + 1,
        }
    } else if kind == TokenTypeDiscriminants::Identifier {
        Parsed::Done { node: ExprView::Variable(tokens[pos]), next: pos + 1 }
    } else if kind == TokenTypeDiscriminants::LeftParen {
        match spec_expression(tokens, pos + 1) {
            Parsed::Done { node, next } => {
                if kind_at(tokens, next) == TokenTypeDiscriminants::RightParen {
                    Parsed::Done { node: ExprView::Grouping { grouping: Box::new(node) }, next: next + 1 }
                } else {
                    Parsed::Failed {
                        error: missing(tokens, next, TokenTypeDiscriminants::RightParen),
                        at: next,
                    }
                }
            },
            Parsed::Failed { error, at } => Parsed::Failed { error, at },
        }
    } else {
        Parsed::Failed {
            error: ParseError::ExpectedExpression { found: kind, line: line_at(tokens, pos) },
            at: pos,
        }
    }
}

/// The rest of args := expr ("," expr)* ")" after the expressions of `before`.
#[verifier::opaque]
pub open spec fn spec_arguments_tail(
    tokens: Seq<TokenView>,
    before: Seq<ExprView>,
    pos: int,
) -> Parsed<Seq<ExprView>>
    decreases tokens.len() - pos, 40int,
{
    if before.len() >= max_arity() {
        Parsed::Failed {
            error: ParseError::TooManyArguments { line: line_at(tokens, pos) },
            at: pos,
        }
    } else {
        match spec_expression(tokens, pos) {
            Parsed::Done { node, next } => {
                if kind_at(tokens, next) == TokenTypeDiscriminants::Comma {
                    if ahead(tokens, pos, next) {
                        spec_arguments_tail(tokens, before.push(node), next + 1)
                    } else {
                        stuck(pos)
                    }
                } else if kind_at(tokens, next) == TokenTypeDiscriminants::RightParen {
                    Parsed::Done { node: before.push(node), next: next + 1 }
                } else {
                    Parsed::Failed {
                        error: missing(tokens, next, TokenTypeDiscriminants::RightParen),
                        at: next,
                    }
                }
            },
            Parsed::Failed { error, at } => Parsed::Failed { error, at },
        }
    }
}

/// args? ")" : the arguments of a call whose "(" stands just before `pos`.
#[verifier::opaque]
pub open spec fn spec_arguments(tokens: Seq<TokenView>, pos: int) -> Parsed<Seq<ExprView>>
    decreases tokens.len() - pos, 41int,
{
    if kind_at(tokens, pos) == TokenTypeDiscriminants::RightParen {
        Parsed::Done { node: Seq::empty(), next: pos + 1 }
    } else {
        spec_arguments_tail(tokens, Seq::empty(), pos)
    }
}

/// ("(" args? ")")* after `callee`: each call is the callee of the next.
#[verifier::opaque]
pub open spec fn spec_call_tail(tokens: Seq<TokenView>, callee: ExprView, pos: int) -> Parsed<
    ExprView,
>
    decreases tokens.len() - pos, 42int,
{
    if kind_at(tokens, pos) == TokenTypeDiscriminants::LeftParen {
        match spec_arguments(tokens, pos + 1) {
            Parsed::Done { node, next } => {
                if ahead(tokens, pos, next) {
                    spec_call_tail(
                        tokens,
                        ExprView::Call {
                            callee: Box::new(callee),
                            paren: tokens[next - 1],
                            arguments: node,
                        },
                        next,
                    )
                } else {
                    stuck(pos)
                }
            },
            Parsed::Failed { error, at } => Parsed::Failed { error, at },
        }
    } else {
        Parsed::Done { node: callee, next: pos }
    }
}

/// call := primary ("(" args? ")")*
#[verifier::opaque]
pub open spec fn spec_call(tokens: Seq<TokenView>, pos: int) -> Parsed<ExprView>
    decreases tokens.len() - pos, 15int,
{
    match spec_primary(tokens, pos) {
        Parsed::Done { node, next } => {
            if ahead(tokens, pos, next) {
                spec_call_tail(tokens, node, next)
            } else {
                stuck(pos)
            }
        },
        Parsed::Failed { error, at } => Parsed::Failed { error, at },
    }
}

/// unary := ("!" | "-") unary | call
#[verifier::opaque]
pub open spec fn spec_unary(tokens: Seq<TokenView>, pos: int) -> Parsed<ExprView>
    decreases tokens.len() - pos, 16int,
{
    let kind = kind_at(tokens, pos);
    if kind == TokenTypeDiscriminants::Bang || kind == TokenTypeDiscriminants::Minus {
        match spec_unary(tokens, pos + 1) {
            Parsed::Done { node, next } => Parsed::Done {
                node: ExprView::Unary { operator: tokens[pos], right: Box::new(node) },
                next,
            },
            Parsed::Failed { error, at } => Parsed::Failed { error, at },
        }
    } else {
        spec_call(tokens, pos)
    }
}

/// An operand of the operators of `level`: an expression of the next level, or
/// a unary expression under the tightest.
#[verifier::opaque]
pub open spec fn spec_operand(level: int, tokens: Seq<TokenView>, pos: int) -> Parsed<ExprView>
    decreases tokens.len() - pos, 29 - 2 * level,
{
    if 0 <= level < 5 {
        spec_binary(level + 1, tokens, pos)
    } else if level == 5 {
        spec_unary(tokens, pos)
    } else {
        stuck(pos)
    }
}

/// (operator operand)* after `left`, for the operators of `level`; they
/// associate to the left.
#[verifier::opaque]
pub open spec fn spec_binary_tail(
    level: int,
    tokens: Seq<TokenView>,
    left: ExprView,
    pos: int,
) -> Parsed<ExprView>
    decreases tokens.len() - pos, 43int,
{
    if is_operator(level, kind_at(tokens, pos)) {
        match spec_operand(level, tokens, pos + 1) {
            Parsed::Done { node, next } => {
                if ahead(tokens, pos, next) {
                    spec_binary_tail(level, tokens, join(level, left, tokens[pos], node), next)
                } else {
                    stuck(pos)
                }
            },
            Parsed::Failed { error, at } => Parsed::Failed { error, at },
        }
    } else {
        Parsed::Done { node: left, next: pos }
    }
}

/// operand (operator operand)* for the operators of `level`:
/// logic_or, logic_and, equality, comparison, term and factor are the levels
/// 0 to 5.
#[verifier::opaque]
pub open spec fn spec_binary(level: int, tokens: Seq<TokenView>, pos: int) -> Parsed<ExprView>
    decreases tokens.len() - pos, 30 - 2 * level,
{
    if 0 <= level <= 5 {
        match spec_operand(level, tokens, pos) {
            Parsed::Done { node, next } => {
                if ahead(tokens, pos, next) {
                    spec_binary_tail(level, tokens, node, next)
                } else {
                    stuck(pos)
                }
            },
            Parsed::Failed { error, at } => Parsed::Failed { error, at },
        }
    } else {
        stuck(pos)
    }
}

/// assignment := IDENT "=" assignment | logic_or
///
/// The left side is read as an expression; after an `=` it must be a bare
/// variable, else the assignment is refused with the line of the `=`.
#[verifier::opaque]
pub open spec fn spec_assignment(tokens: Seq<TokenView>, pos: int) -> Parsed<ExprView>
    decreases tokens.len() - pos, 32int,
{
    match spec_binary(0, tokens, pos) {
        Parsed::Done { node, next } => {
            if kind_at(tokens, next) == TokenTypeDiscriminants::Equal {
                if ahead(tokens, pos, next) {
                    match spec_assignment(tokens, next + 1) {
                        Parsed::Done { node: value, next: after } => match node {
                            ExprView::Variable(name) => Parsed::Done {
                                node: ExprView::Assign { name, value: Box::new(value) },
                                next: after,
                            },
                            _ => Parsed::Failed {
                                error: ParseError::InvalidAssignmentTarget {
                                    line: line_at(tokens, next),
                                },
                                at: after,
                            },
                        },
                        Parsed::Failed { error, at } => Parsed::Failed { error, at },
                    }
                } else {
                    stuck(pos)
                }
            } else {
                Parsed::Done { node, next }
            }
        },
        Parsed::Failed { error, at } => Parsed::Failed { error, at },
    }
}

/// expr := assignment
#[verifier::opaque]
pub open spec fn spec_expression(tokens: Seq<TokenView>, pos: int) -> Parsed<ExprView>
    decreases tokens.len() - pos, 33int,
{
    spec_assignment(tokens, pos)
}

/// What the grammar makes of a statement: the statement or the error that
/// ended it, the position reached, and the errors of the declarations inside
/// it that were given up.
pub struct Outcome<T> {
    pub result: Result<T, ParseError>,
    pub next: int,
    pub errors: Seq<ParseError>,
}

/// A node read up to `next`, nothing given up.
pub open spec fn done<T>(node: T, next: int) -> Outcome<T> {
    Outcome { result: Ok(node), next, errors: Seq::empty() }
}

/// An error found at `at`, nothing given up before it.
pub open spec fn failed<T>(error: ParseError, at: int) -> Outcome<T> {
    Outcome { result: Err(error), next: at, errors: Seq::empty() }
}

/// `node`, if a token of `kind` closes it at `next`.
pub open spec fn closed_by<T>(
    tokens: Seq<TokenView>,
    next: int,
    kind: TokenTypeDiscriminants,
    node: T,
) -> Outcome<T> {
    if kind_at(tokens, next) == kind {
        done(node, next + 1)
    } else {
        failed(missing(tokens, next, kind), next)
    }
}

/// Where the parser resumes after an error at `pos`: one token is given up,
/// and then every token until a semicolon has just been passed or a token
/// that begins a statement comes next.
pub open spec fn spec_synchronize(tokens: Seq<TokenView>, pos: int) -> int {
    if kind_at(tokens, pos) == TokenTypeDiscriminants::Eof {
        pos
    } else {
        spec_resume(tokens, pos + 1)
    }
}

/// The first position from `pos` on at which the parser may resume.
#[verifier::opaque]
pub open spec fn spec_resume(tokens: Seq<TokenView>, pos: int) -> int
    decreases tokens.len() - pos,
{
    if kind_at(tokens, pos) == TokenTypeDiscriminants::Eof || kind_at(tokens, pos - 1)
        == TokenTypeDiscriminants::Semicolon || kind_at(tokens, pos).begins_statement() {
        pos
    } else {
        spec_resume(tokens, pos + 1)
    }
}

/// exprStmt := expr ";"
#[verifier::opaque]
pub open spec fn spec_expression_statement(tokens: Seq<TokenView>, pos: int) -> Outcome<StmtView> {
    match spec_expression(tokens, pos) {
        Parsed::Done { node, next } => closed_by(
            tokens,
            next,
            TokenTypeDiscriminants::Semicolon,
            StmtView::Expression(node),
        ),
        Parsed::Failed { error, at } => failed(error, at),
    }
}

/// printStmt := "print" expr ";" , from the position after `print`.
#[verifier::opaque]
pub open spec fn spec_print_statement(tokens: Seq<TokenView>, pos: int) -> Outcome<StmtView> {
    match spec_expression(tokens, pos) {
        Parsed::Done { node, next } => closed_by(
            tokens,
            next,
            TokenTypeDiscriminants::Semicolon,
            StmtView::Print(node),
        ),
        Parsed::Failed { error, at } => failed(error, at),
    }
}

/// returnStmt := "return" expr? ";" , from the position of `return`.
#[verifier::opaque]
pub open spec fn spec_return_statement(tokens: Seq<TokenView>, pos: int) -> Outcome<StmtView> {
    if kind_at(tokens, pos + 1) == TokenTypeDiscriminants::Semicolon {
        done(StmtView::Return { token: tokens[pos], value: None }, pos + 2)
    } else {
        match spec_expression(tokens, pos + 1) {
            Parsed::Done { node, next } => closed_by(
                tokens,
                next,
                TokenTypeDiscriminants::Semicolon,
                StmtView::Return { token: tokens[pos], value: Some(node) },
            ),
            Parsed::Failed { error, at } => failed(error, at),
        }
    }
}

/// varDecl := "var" IDENT ("=" expr)? ";" , from the position after `var`.
#[verifier::opaque]
pub open spec fn spec_var_declaration(tokens: Seq<TokenView>, pos: int) -> Outcome<StmtView> {
    if kind_at(tokens, pos) != TokenTypeDiscriminants::Identifier {
        failed(missing(tokens, pos, TokenTypeDiscriminants::Identifier), pos)
    } else if kind_at(tokens, pos + 1) == TokenTypeDiscriminants::Equal {
        match spec_expression(tokens, pos + 2) {
            Parsed::Done { node, next } => closed_by(
                tokens,
                next,
                TokenTypeDiscriminants::Semicolon,
                StmtView::Var { name: tokens[pos], initializer: Some(node) },
            ),
            Parsed::Failed { error, at } => failed(error, at),
        }
    } else {
        closed_by(
            tokens,
            pos + 1,
            TokenTypeDiscriminants::Semicolon,
            StmtView::Var { name: tokens[pos], initializer: None },
        )
    }
}

/// "(" expr ")" : the condition of an `if` or a `while`.
#[verifier::opaque]
pub open spec fn spec_condition(tokens: Seq<TokenView>, pos: int) -> Parsed<ExprView> {
    if kind_at(tokens, pos) != TokenTypeDiscriminants::LeftParen {
        Parsed::Failed { error: missing(tokens, pos, TokenTypeDiscriminants::LeftParen), at: pos }
    } else {
        match spec_expression(tokens, pos + 1) {
            Parsed::Done { node, next } => {
                if kind_at(tokens, next) == TokenTypeDiscriminants::RightParen {
                    Parsed::Done { node, next: next + 1 }
                } else {
                    Parsed::Failed {
                        error: missing(tokens, next, TokenTypeDiscriminants::RightParen),
                        at: next,
                    }
                }
            },
            Parsed::Failed { error, at } => Parsed::Failed { error, at },
        }
    }
}

/// (varDecl | exprStmt | ";") : the first clause of a `for`.
#[verifier::opaque]
pub open spec fn spec_for_initializer(tokens: Seq<TokenView>, pos: int) -> Outcome<
    Option<StmtView>,
> {
    if kind_at(tokens, pos) == TokenTypeDiscriminants::Semicolon {
        done(None, pos + 1)
    } else {
        let first = if kind_at(tokens, pos) == TokenTypeDiscriminants::Var {
            spec_var_declaration(tokens, pos + 1)
        } else {
            spec_expression_statement(tokens, pos)
        };
        match first.result {
            Ok(s) => done(Some(s), first.next),
            Err(error) => failed(error, first.next),
        }
    }
}

/// expr? ";" : the second clause of a `for`; left out, it is `true`.
#[verifier::opaque]
pub open spec fn spec_for_condition(tokens: Seq<TokenView>, pos: int) -> Parsed<ExprView> {
    if kind_at(tokens, pos) == TokenTypeDiscriminants::Semicolon {
        Parsed::Done { node: ExprView::Literal(LiteralView::Boolean(true)), next: pos + 1 }
    } else {
        match spec_expression(tokens, pos) {
            Parsed::Done { node, next } => {
                if kind_at(tokens, next) == TokenTypeDiscriminants::Semicolon {
                    Parsed::Done { node, next: next + 1 }
                } else {
                    Parsed::Failed {
                        error: missing(tokens, next, TokenTypeDiscriminants::Semicolon),
                        at: next,
                    }
                }
            },
            Parsed::Failed { error, at } => Parsed::Failed { error, at },
        }
    }
}

/// expr? ")" : the third clause of a `for`.
#[verifier::opaque]
pub open spec fn spec_for_increment(tokens: Seq<TokenView>, pos: int) -> Parsed<Option<ExprView>> {
    if kind_at(tokens, pos) == TokenTypeDiscriminants::RightParen {
        Parsed::Done { node: None, next: pos + 1 }
    } else {
        match spec_expression(tokens, pos) {
            Parsed::Done { node, next } => {
                if kind_at(tokens, next) == TokenTypeDiscriminants::RightParen {
                    Parsed::Done { node: Some(node), next: next + 1 }
                } else {
                    Parsed::Failed {
                        error: missing(tokens, next, TokenTypeDiscriminants::RightParen),
                        at: next,
                    }
                }
            },
            Parsed::Failed { error, at } => Parsed::Failed { error, at },
        }
    }
}

/// `for (I; C; U) B` written without `for`: `{ I; while (C) { B; U; } }`,
/// without the inner block where there is no `U` and without the outer where
/// there is no `I`.
pub open spec fn desugar_for(
    initializer: Option<StmtView>,
    condition: ExprView,
    increment: Option<ExprView>,
    body: StmtView,
) -> StmtView {
    let repeated = match increment {
        Some(step) => StmtView::Block(seq![body, StmtView::Expression(step)]),
        None => body,
    };
    let looping = StmtView::While { condition, body: Box::new(repeated) };
    match initializer {
        Some(first) => StmtView::Block(seq![first, looping]),
        None => looping,
    }
}

/// The rest of params := IDENT ("," IDENT)* ")" after the names of `before`.
#[verifier::opaque]
pub open spec fn spec_parameters_tail(
    tokens: Seq<TokenView>,
    before: Seq<TokenView>,
    pos: int,
) -> Parsed<Seq<TokenView>>
    decreases tokens.len() - pos,
{
    if before.len() >= max_arity() {
        Parsed::Failed {
            error: ParseError::TooManyParameters { line: line_at(tokens, pos) },
            at: pos,
        }
    } else if kind_at(tokens, pos) != TokenTypeDiscriminants::Identifier {
        Parsed::Failed { error: missing(tokens, pos, TokenTypeDiscriminants::Identifier), at: pos }
    } else if kind_at(tokens, pos + 1) == TokenTypeDiscriminants::Comma {
        spec_parameters_tail(tokens, before.push(tokens[pos]), pos + 2)
    } else if kind_at(tokens, pos + 1) == TokenTypeDiscriminants::RightParen {
        Parsed::Done { node: before.push(tokens[pos]), next: pos + 2 }
    } else {
        Parsed::Failed {
            error: missing(tokens, pos + 1, TokenTypeDiscriminants::RightParen),
            at: pos + 1,
        }
    }
}

/// "{" after the parameters of a function.
pub open spec fn spec_body_opens(tokens: Seq<TokenView>, list: Parsed<Seq<TokenView>>) -> Parsed<
    Seq<TokenView>,
> {
    match list {
        Parsed::Done { node, next } => {
            if kind_at(tokens, next) == TokenTypeDiscriminants::LeftBrace {
                Parsed::Done { node, next: next + 1 }
            } else {
                Parsed::Failed {
                    error: missing(tokens, next, TokenTypeDiscriminants::LeftBrace),
                    at: next,
                }
            }
        },
        Parsed::Failed { error, at } => Parsed::Failed { error, at },
    }
}

/// "(" params? ")" "{" : the head of a function after its name.
#[verifier::opaque]
pub open spec fn spec_parameters(tokens: Seq<TokenView>, pos: int) -> Parsed<Seq<TokenView>> {
    if kind_at(tokens, pos) != TokenTypeDiscriminants::LeftParen {
        Parsed::Failed { error: missing(tokens, pos, TokenTypeDiscriminants::LeftParen), at: pos }
    } else if kind_at(tokens, pos + 1) == TokenTypeDiscriminants::RightParen {
        spec_body_opens(tokens, Parsed::Done { node: Seq::empty(), next: pos + 2 })
    } else {
        spec_body_opens(tokens, spec_parameters_tail(tokens, Seq::empty(), pos + 1))
    }
}

/// What the grammar makes of a declaration: the statement, or none where it
/// was given up; the position reached; and the errors of what was given up,
/// the declaration itself included.
pub struct Declared {
    pub statement: Option<StmtView>,
    pub next: int,
    pub errors: Seq<ParseError>,
}

/// The statements that a declaration adds to a list: one or none.
pub open spec fn kept(statement: Option<StmtView>) -> Seq<StmtView> {
    match statement {
        Some(s) => seq![s],
        None => Seq::empty(),
    }
}

/// funDecl := "fun" IDENT "(" params? ")" block , from the position after
/// `fun`.
#[verifier::opaque]
pub open spec fn spec_function(tokens: Seq<TokenView>, pos: int) -> Outcome<StmtView>
    decreases tokens.len() - pos, 5int,
{
    if kind_at(tokens, pos) != TokenTypeDiscriminants::Identifier {
        failed(missing(tokens, pos, TokenTypeDiscriminants::Identifier), pos)
    } else {
        match spec_parameters(tokens, pos + 1) {
            Parsed::Done { node: params, next } => {
                if ahead(tokens, pos, next) {
                    let body = spec_block_items(tokens, Seq::empty(), next);
                    Outcome {
                        result: match body.result {
                            Ok(statements) => Ok(
                                StmtView::Function { name: tokens[pos], params, body: statements },
                            ),
                            Err(error) => Err(error),
                        },
                        next: body.next,
                        errors: body.errors,
                    }
                } else {
                    failed(stuck_error(), pos)
                }
            },
            Parsed::Failed { error, at } => failed(error, at),
        }
    }
}

/// ifStmt := "if" "(" expr ")" statement ("else" statement)? , from the
/// position after `if`.
#[verifier::opaque]
pub open spec fn spec_if_statement(tokens: Seq<TokenView>, pos: int) -> Outcome<StmtView>
    decreases tokens.len() - pos, 5int,
{
    match spec_condition(tokens, pos) {
        Parsed::Done { node: condition, next } => {
            if ahead(tokens, pos, next) {
                let first = spec_statement(tokens, next);
                match first.result {
                    Ok(then) => {
                        if kind_at(tokens, first.next) == TokenTypeDiscriminants::Else {
                            if ahead(tokens, pos, first.next) {
                                let second = spec_statement(tokens, first.next + 1);
                                Outcome {
                                    result: match second.result {
                                        Ok(els) => Ok(
                                            StmtView::If {
                                                condition,
                                                then: Box::new(then),
                                                els: Some(Box::new(els)),
                                            },
                                        ),
                                        Err(error) => Err(error),
                                    },
                                    next: second.next,
                                    errors: first.errors + second.errors,
                                }
                            } else {
                                failed(stuck_error(), pos)
                            }
                        } else {
                            Outcome {
                                result: Ok(
                                    StmtView::If { condition, then: Box::new(then), els: None },
                                ),
                                next: first.next,
                                errors: first.errors,
                            }
                        }
                    },
                    Err(error) => Outcome {
                        result: Err(error),
                        next: first.next,
                        errors: first.errors,
                    },
                }
            } else {
                failed(stuck_error(), pos)
            }
        },
        Parsed::Failed { error, at } => failed(error, at),
    }
}

/// whileStmt := "while" "(" expr ")" statement , from the position after
/// `while`.
#[verifier::opaque]
pub open spec fn spec_while_statement(tokens: Seq<TokenView>, pos: int) -> Outcome<StmtView>
    decreases tokens.len() - pos, 5int,
{
    match spec_condition(tokens, pos) {
        Parsed::Done { node: condition, next } => {
            if ahead(tokens, pos, next) {
                let body = spec_statement(tokens, next);
                Outcome {
                    result: match body.result {
                        Ok(s) => Ok(StmtView::While { condition, body: Box::new(s) }),
                        Err(error) => Err(error),
                    },
                    next: body.next,
                    errors: body.errors,
                }
            } else {
                failed(stuck_error(), pos)
            }
        },
        Parsed::Failed { error, at } => failed(error, at),
    }
}

/// forStmt := "for" "(" (varDecl | exprStmt | ";") expr? ";" expr? ")"
/// statement , from the position after `for`. The statement it gives holds no
/// `for`: see [`desugar_for`].
#[verifier::opaque]
pub open spec fn spec_for_statement(tokens: Seq<TokenView>, pos: int) -> Outcome<StmtView>
    decreases tokens.len() - pos, 5int,
{
    if kind_at(tokens, pos) != TokenTypeDiscriminants::LeftParen {
        failed(missing(tokens, pos, TokenTypeDiscriminants::LeftParen), pos)
    } else {
        let first = spec_for_initializer(tokens, pos + 1);
        match first.result {
            Ok(initializer) => match spec_for_condition(tokens, first.next) {
                Parsed::Done { node: condition, next: second } => match spec_for_increment(
                    tokens,
                    second,
                ) {
                    Parsed::Done { node: increment, next: third } => {
                        if ahead(tokens, pos, third) {
                            let body = spec_statement(tokens, third);
                            Outcome {
                                result: match body.result {
                                    Ok(s) => Ok(desugar_for(initializer, condition, increment, s)),
                                    Err(error) => Err(error),
                                },
                                next: body.next,
                                errors: body.errors,
                            }
                        } else {
                            failed(stuck_error(), pos)
                        }
                    },
                    Parsed::Failed { error, at } => failed(error, at),
                },
                Parsed::Failed { error, at } => failed(error, at),
            },
            Err(error) => failed(error, first.next),
        }
    }
}

/// statement := exprStmt | printStmt | block | ifStmt | whileStmt | forStmt
///            | returnStmt
#[verifier::opaque]
pub open spec fn spec_statement(tokens: Seq<TokenView>, pos: int) -> Outcome<StmtView>
    decreases tokens.len() - pos, 10int,
{
    let kind = kind_at(tokens, pos);
    if kind == TokenTypeDiscriminants::Print {
        spec_print_statement(tokens, pos + 1)
    } else if kind == TokenTypeDiscriminants::LeftBrace {
        let block = spec_block_items(tokens, Seq::empty(), pos + 1);
        Outcome {
            result: match block.result {
                Ok(statements) => Ok(StmtView::Block(statements)),
                Err(error) => Err(error),
            },
            next: block.next,
            errors: block.errors,
        }
    } else if kind == TokenTypeDiscriminants::If {
        spec_if_statement(tokens, pos + 1)
    } else if kind == TokenTypeDiscriminants::While {
        spec_while_statement(tokens, pos + 1)
    } else if kind == TokenTypeDiscriminants::For {
        spec_for_statement(tokens, pos + 1)
    } else if kind == TokenTypeDiscriminants::Return {
        spec_return_statement(tokens, pos)
    } else {
        spec_expression_statement(tokens, pos)
    }
}

/// declaration* "}" : the rest of a block after the statements of `before`.
/// A declaration that is given up leaves its error and no statement.
#[verifier::opaque]
pub open spec fn spec_block_items(
    tokens: Seq<TokenView>,
    before: Seq<StmtView>,
    pos: int,
) -> Outcome<Seq<StmtView>>
    decreases tokens.len() - pos, 20int,
{
    if kind_at(tokens, pos) == TokenTypeDiscriminants::RightBrace {
        done(before, pos + 1)
    } else if kind_at(tokens, pos) == TokenTypeDiscriminants::Eof {
        failed(missing(tokens, pos, TokenTypeDiscriminants::RightBrace), pos)
    } else {
        let first = spec_declaration(tokens, pos);
        if ahead(tokens, pos, first.next) {
            let rest = spec_block_items(tokens, before + kept(first.statement), first.next);
            Outcome { result: rest.result, next: rest.next, errors: first.errors + rest.errors }
        } else {
            failed(stuck_error(), pos)
        }
    }
}

/// declaration := funDecl | varDecl | statement
///
/// A declaration that fails is given up: the parser resumes where
/// [`spec_synchronize`] says, and the error is kept.
#[verifier::opaque]
pub open spec fn spec_declaration(tokens: Seq<TokenView>, pos: int) -> Declared
    decreases tokens.len() - pos, 15int,
{
    let kind = kind_at(tokens, pos);
    let outcome = if kind == TokenTypeDiscriminants::Fun {
        spec_function(tokens, pos + 1)
    } else if kind == TokenTypeDiscriminants::Var {
        spec_var_declaration(tokens, pos + 1)
    } else {
        spec_statement(tokens, pos)
    };
    match outcome.result {
        Ok(s) => Declared { statement: Some(s), next: outcome.next, errors: outcome.errors },
        Err(error) => Declared {
            statement: None,
            next: spec_synchronize(tokens, outcome.next),
            errors: outcome.errors.push(error),
        },
    }
}

/// What the grammar makes of a whole token sequence.
pub struct Program {
    pub statements: Seq<StmtView>,
    pub errors: Seq<ParseError>,
}

/// program := declaration* EOF , from `pos` on: the statements of the
/// declarations that were read, and the errors of those that were given up.
#[verifier::opaque]
pub open spec fn spec_program(tokens: Seq<TokenView>, pos: int) -> Program
    decreases tokens.len() - pos,
{
    if kind_at(tokens, pos) == TokenTypeDiscriminants::Eof {
        Program { statements: Seq::empty(), errors: Seq::empty() }
    } else {
        let first = spec_declaration(tokens, pos);
        if ahead(tokens, pos, first.next) {
            let rest = spec_program(tokens, first.next);
            Program {
                statements: kept(first.statement) + rest.statements,
                errors: first.errors + rest.errors,
            }
        } else {
            Program { statements: Seq::empty(), errors: Seq::empty() }
        }
    }
}

/// Whether a part of the grammar that began at `pos` has moved ahead: past
/// `pos` where it read a node, and not back where it failed; and never past
/// the end of the tokens.
pub open spec fn moved<T>(tokens: Seq<TokenView>, pos: int, parsed: Parsed<T>) -> bool {
    match parsed {
        Parsed::Done { node, next } => ahead(tokens, pos, next),
        Parsed::Failed { error, at } => pos <= at <= tokens.len(),
    }
}

/// As [`moved`], for a part of the grammar that may read nothing.
pub open spec fn not_moved_back<T>(tokens: Seq<TokenView>, pos: int, parsed: Parsed<T>) -> bool {
    match parsed {
        Parsed::Done { node, next } => pos <= next <= tokens.len(),
        Parsed::Failed { error, at } => pos <= at <= tokens.len(),
    }
}

/// As [`moved`], for a statement.
pub open spec fn statement_moved<T>(tokens: Seq<TokenView>, pos: int, outcome: Outcome<T>) -> bool {
    match outcome.result {
        Ok(_) => ahead(tokens, pos, outcome.next),
        Err(_) => pos <= outcome.next <= tokens.len(),
    }
}

pub proof fn lemma_primary_moves(tokens: Seq<TokenView>, pos: int)
    requires
        0 <= pos <= tokens.len(),
    ensures
        moved(tokens, pos, spec_primary(tokens, pos)),
    decreases tokens.len() - pos, 14int,
{
    reveal(spec_primary);
    reveal(spec_expression);
    if kind_at(tokens, pos) == TokenTypeDiscriminants::LeftParen {
        lemma_expression_moves(tokens, pos + 1);
    }
}

pub proof fn lemma_arguments_tail_moves(tokens: Seq<TokenView>, before: Seq<ExprView>, pos: int)
    requires
        0 <= pos <= tokens.len(),
    ensures
        moved(tokens, pos, spec_arguments_tail(tokens, before, pos)),
    decreases tokens.len() - pos, 40int,
{
    reveal(spec_arguments_tail);
    reveal(spec_expression);
    if before.len() < max_arity() {
        lemma_expression_moves(tokens, pos);
        match spec_expression(tokens, pos) {
            Parsed::Done { node, next } => {
                if kind_at(tokens, next) == TokenTypeDiscriminants::Comma {
                    lemma_arguments_tail_moves(tokens, before.push(node), next + 1);
                }
            },
            Parsed::Failed { error, at } => {},
        }
    }
}

pub proof fn lemma_arguments_moves(tokens: Seq<TokenView>, pos: int)
    requires
        0 <= pos <= tokens.len(),
    ensures
        moved(tokens, pos, spec_arguments(tokens, pos)),
    decreases tokens.len() - pos, 41int,
{
    reveal(spec_arguments);
    reveal(spec_arguments_tail);
    if kind_at(tokens, pos) != TokenTypeDiscriminants::RightParen {
        lemma_arguments_tail_moves(tokens, Seq::empty(), pos);
    }
}

pub proof fn lemma_call_tail_moves(tokens: Seq<TokenView>, callee: ExprView, pos: int)
    requires
        0 <= pos <= tokens.len(),
    ensures
        not_moved_back(tokens, pos, spec_call_tail(tokens, callee, pos)),
    decreases tokens.len() - pos, 42int,
{
    reveal(spec_call_tail);
    reveal(spec_arguments);
    if kind_at(tokens, pos) == TokenTypeDiscriminants::LeftParen {
        lemma_arguments_moves(tokens, pos + 1);
        match spec_arguments(tokens, pos + 1) {
            Parsed::Done { node, next } => {
                lemma_call_tail_moves(
                    tokens,
                    ExprView::Call { callee: Box::new(callee), paren: tokens[next - 1], arguments: node },
                    next,
                );
            },
            Parsed::Failed { error, at } => {},
        }
    }
}

pub proof fn lemma_call_moves(tokens: Seq<TokenView>, pos: int)
    requires
        0 <= pos <= tokens.len(),
    ensures
        moved(tokens, pos, spec_call(tokens, pos)),
    decreases tokens.len() - pos, 15int,
{
    reveal(spec_call);
    reveal(spec_primary);
    reveal(spec_call_tail);
    lemma_primary_moves(tokens, pos);
    match spec_primary(tokens, pos) {
        Parsed::Done { node, next } => {
            lemma_call_tail_moves(tokens, node, next);
        },
        Parsed::Failed { error, at } => {},
    }
}

pub proof fn lemma_unary_moves(tokens: Seq<TokenView>, pos: int)
    requires
        0 <= pos <= tokens.len(),
    ensures
        moved(tokens, pos, spec_unary(tokens, pos)),
    decreases tokens.len() - pos, 16int,
{
    reveal(spec_unary);
    reveal(spec_call);
    let kind = kind_at(tokens, pos);
    if kind == TokenTypeDiscriminants::Bang || kind == TokenTypeDiscriminants::Minus {
        lemma_unary_moves(tokens, pos + 1);
    } else {
        lemma_call_moves(tokens, pos);
    }
}

pub proof fn lemma_operand_moves(level: int, tokens: Seq<TokenView>, pos: int)
    requires
        0 <= pos <= tokens.len(),
        0 <= level <= 5,
    ensures
        moved(tokens, pos, spec_operand(level, tokens, pos)),
    decreases tokens.len() - pos, 29 - 2 * level,
{
    reveal(spec_operand);
    reveal(spec_binary);
    reveal(spec_unary);
    if level < 5 {
        lemma_binary_moves(level + 1, tokens, pos);
    } else {
        lemma_unary_moves(tokens, pos);
    }
}

pub proof fn lemma_binary_tail_moves(level: int, tokens: Seq<TokenView>, left: ExprView, pos: int)
    requires
        0 <= pos <= tokens.len(),
        0 <= level <= 5,
    ensures
        not_moved_back(tokens, pos, spec_binary_tail(level, tokens, left, pos)),
    decreases tokens.len() - pos, 43int,
{
    reveal(spec_binary_tail);
    reveal(spec_operand);
    if is_operator(level, kind_at(tokens, pos)) {
        lemma_operand_moves(level, tokens, pos + 1);
        match spec_operand(level, tokens, pos + 1) {
            Parsed::Done { node, next } => {
                lemma_binary_tail_moves(level, tokens, join(level, left, tokens[pos], node), next);
            },
            Parsed::Failed { error, at } => {},
        }
    }
}

pub proof fn lemma_binary_moves(level: int, tokens: Seq<TokenView>, pos: int)
    requires
        0 <= pos <= tokens.len(),
        0 <= level <= 5,
    ensures
        moved(tokens, pos, spec_binary(level, tokens, pos)),
    decreases tokens.len() - pos, 30 - 2 * level,
{
    reveal(spec_binary);
    reveal(spec_operand);
    reveal(spec_binary_tail);
    lemma_operand_moves(level, tokens, pos);
    match spec_operand(level, tokens, pos) {
        Parsed::Done { node, next } => {
            lemma_binary_tail_moves(level, tokens, node, next);
        },
        Parsed::Failed { error, at } => {},
    }
}

pub proof fn lemma_assignment_moves(tokens: Seq<TokenView>, pos: int)
    requires
        0 <= pos <= tokens.len(),
    ensures
        moved(tokens, pos, spec_assignment(tokens, pos)),
    decreases tokens.len() - pos, 32int,
{
    reveal(spec_assignment);
    reveal(spec_binary);
    lemma_binary_moves(0, tokens, pos);
    match spec_binary(0, tokens, pos) {
        Parsed::Done { node, next } => {
            if kind_at(tokens, next) == TokenTypeDiscriminants::Equal {
                lemma_assignment_moves(tokens, next + 1);
            }
        },
        Parsed::Failed { error, at } => {},
    }
}

/// Every part of the grammar of expressions moves ahead: where it reads an
/// expression, it has passed at least one token, and it never passes the end
/// of the tokens. So the case of standing still, which the definitions make
/// for their own well-foundedness, never arises.
pub proof fn lemma_expression_moves(tokens: Seq<TokenView>, pos: int)
    requires
        0 <= pos <= tokens.len(),
    ensures
        moved(tokens, pos, spec_expression(tokens, pos)),
    decreases tokens.len() - pos, 33int,
{
    reveal(spec_expression);
    reveal(spec_assignment);
    lemma_assignment_moves(tokens, pos);
}

/// Where the parser resumes lies at or after where it stood, and inside the
/// tokens.
pub proof fn lemma_resume_moves(tokens: Seq<TokenView>, pos: int)
    requires
        0 <= pos <= tokens.len(),
    ensures
        pos <= spec_resume(tokens, pos) <= tokens.len(),
    decreases tokens.len() - pos,
{
    reveal(spec_resume);
    if !(kind_at(tokens, pos) == TokenTypeDiscriminants::Eof || kind_at(tokens, pos - 1)
        == TokenTypeDiscriminants::Semicolon || kind_at(tokens, pos).begins_statement()) {
        lemma_resume_moves(tokens, pos + 1);
    }
}

pub proof fn lemma_simple_statements_move(tokens: Seq<TokenView>, pos: int)
    requires
        0 <= pos <= tokens.len(),
    ensures
        statement_moved(tokens, pos, spec_expression_statement(tokens, pos)),
        statement_moved(tokens, pos, spec_print_statement(tokens, pos)),
        statement_moved(tokens, pos, spec_var_declaration(tokens, pos)),
        statement_moved(tokens, pos, spec_for_initializer(tokens, pos)),
        pos < tokens.len() ==> statement_moved(tokens, pos, spec_return_statement(tokens, pos)),
        moved(tokens, pos, spec_condition(tokens, pos)),
        moved(tokens, pos, spec_for_condition(tokens, pos)),
        moved(tokens, pos, spec_for_increment(tokens, pos)),
        spec_expression_statement(tokens, pos).errors == Seq::<ParseError>::empty(),
        spec_print_statement(tokens, pos).errors == Seq::<ParseError>::empty(),
        spec_var_declaration(tokens, pos).errors == Seq::<ParseError>::empty(),
        spec_return_statement(tokens, pos).errors == Seq::<ParseError>::empty(),
{
    reveal(spec_expression_statement);
    reveal(spec_print_statement);
    reveal(spec_var_declaration);
    reveal(spec_for_initializer);
    reveal(spec_return_statement);
    reveal(spec_condition);
    reveal(spec_for_condition);
    reveal(spec_for_increment);
    lemma_expression_moves(tokens, pos);
    if pos + 1 <= tokens.len() {
        lemma_expression_moves(tokens, pos + 1);
    }
    if pos + 2 <= tokens.len() {
        lemma_expression_moves(tokens, pos + 2);
    }
    if pos + 3 <= tokens.len() {
        lemma_expression_moves(tokens, pos + 3);
    }
}

pub proof fn lemma_parameters_tail_moves(tokens: Seq<TokenView>, before: Seq<TokenView>, pos: int)
    requires
        0 <= pos <= tokens.len(),
    ensures
        moved(tokens, pos, spec_parameters_tail(tokens, before, pos)),
    decreases tokens.len() - pos,
{
    reveal(spec_parameters_tail);
    if before.len() < max_arity() && kind_at(tokens, pos) == TokenTypeDiscriminants::Identifier
        && kind_at(tokens, pos + 1) == TokenTypeDiscriminants::Comma {
        lemma_parameters_tail_moves(tokens, before.push(tokens[pos]), pos + 2);
    }
}

pub proof fn lemma_parameters_moves(tokens: Seq<TokenView>, pos: int)
    requires
        0 <= pos <= tokens.len(),
    ensures
        moved(tokens, pos, spec_parameters(tokens, pos)),
{
    reveal(spec_parameters);
    if pos + 1 <= tokens.len() {
        lemma_parameters_tail_moves(tokens, Seq::empty(), pos + 1);
    }
}

pub proof fn lemma_function_moves(tokens: Seq<TokenView>, pos: int)
    requires
        0 <= pos <= tokens.len(),
    ensures
        statement_moved(tokens, pos, spec_function(tokens, pos)),
    decreases tokens.len() - pos, 5int,
{
    reveal(spec_function);
    reveal(spec_block_items);
    if kind_at(tokens, pos) == TokenTypeDiscriminants::Identifier {
        lemma_parameters_moves(tokens, pos + 1);
        match spec_parameters(tokens, pos + 1) {
            Parsed::Done { node, next } => {
                lemma_block_items_moves(tokens, Seq::empty(), next);
            },
            Parsed::Failed { error, at } => {},
        }
    }
}

pub proof fn lemma_if_statement_moves(tokens: Seq<TokenView>, pos: int)
    requires
        0 <= pos <= tokens.len(),
    ensures
        statement_moved(tokens, pos, spec_if_statement(tokens, pos)),
    decreases tokens.len() - pos, 5int,
{
    reveal(spec_if_statement);
    reveal(spec_statement);
    lemma_simple_statements_move(tokens, pos);
    match spec_condition(tokens, pos) {
        Parsed::Done { node, next } => {
            lemma_statement_moves(tokens, next);
            let first = spec_statement(tokens, next);
            if first.result is Ok && kind_at(tokens, first.next) == TokenTypeDiscriminants::Else {
                lemma_statement_moves(tokens, first.next + 1);
            }
        },
        Parsed::Failed { error, at } => {},
    }
}

pub proof fn lemma_while_statement_moves(tokens: Seq<TokenView>, pos: int)
    requires
        0 <= pos <= tokens.len(),
    ensures
        statement_moved(tokens, pos, spec_while_statement(tokens, pos)),
    decreases tokens.len() - pos, 5int,
{
    reveal(spec_while_statement);
    reveal(spec_statement);
    lemma_simple_statements_move(tokens, pos);
    match spec_condition(tokens, pos) {
        Parsed::Done { node, next } => {
            lemma_statement_moves(tokens, next);
        },
        Parsed::Failed { error, at } => {},
    }
}

pub proof fn lemma_for_statement_moves(tokens: Seq<TokenView>, pos: int)
    requires
        0 <= pos <= tokens.len(),
    ensures
        statement_moved(tokens, pos, spec_for_statement(tokens, pos)),
    decreases tokens.len() - pos, 5int,
{
    reveal(spec_for_statement);
    reveal(spec_statement);
    if kind_at(tokens, pos) == TokenTypeDiscriminants::LeftParen {
        lemma_simple_statements_move(tokens, pos + 1);
        let first = spec_for_initializer(tokens, pos + 1);
        if first.result is Ok {
            lemma_simple_statements_move(tokens, first.next);
            match spec_for_condition(tokens, first.next) {
                Parsed::Done { node, next: second } => {
                    lemma_simple_statements_move(tokens, second);
                    match spec_for_increment(tokens, second) {
                        Parsed::Done { node: increment, next: third } => {
                            lemma_statement_moves(tokens, third);
                        },
                        Parsed::Failed { error, at } => {},
                    }
                },
                Parsed::Failed { error, at } => {},
            }
        }
    }
}

/// Every statement moves ahead: where it is read, at least one token was
/// passed, and the end of the tokens never is. So the case of standing
/// still, which the definitions make for their own well-foundedness, never
/// arises.
pub proof fn lemma_statement_moves(tokens: Seq<TokenView>, pos: int)
    requires
        0 <= pos <= tokens.len(),
    ensures
        statement_moved(tokens, pos, spec_statement(tokens, pos)),
    decreases tokens.len() - pos, 10int,
{
    reveal(spec_statement);
    reveal(spec_block_items);
    reveal(spec_if_statement);
    reveal(spec_while_statement);
    reveal(spec_for_statement);
    let kind = kind_at(tokens, pos);
    lemma_simple_statements_move(tokens, pos);
    if pos < tokens.len() {
        lemma_simple_statements_move(tokens, pos + 1);
    }
    if kind == TokenTypeDiscriminants::LeftBrace {
        lemma_block_items_moves(tokens, Seq::empty(), pos + 1);
    } else if kind == TokenTypeDiscriminants::If {
        lemma_if_statement_moves(tokens, pos + 1);
    } else if kind == TokenTypeDiscriminants::While {
        lemma_while_statement_moves(tokens, pos + 1);
    } else if kind == TokenTypeDiscriminants::For {
        lemma_for_statement_moves(tokens, pos + 1);
    }
}

pub proof fn lemma_block_items_moves(tokens: Seq<TokenView>, before: Seq<StmtView>, pos: int)
    requires
        0 <= pos <= tokens.len(),
    ensures
        statement_moved(tokens, pos, spec_block_items(tokens, before, pos)),
    decreases tokens.len() - pos, 20int,
{
    reveal(spec_block_items);
    reveal(spec_declaration);
    if kind_at(tokens, pos) != TokenTypeDiscriminants::RightBrace && kind_at(tokens, pos)
        != TokenTypeDiscriminants::Eof {
        lemma_declaration_moves(tokens, pos);
        let first = spec_declaration(tokens, pos);
        lemma_block_items_moves(tokens, before + kept(first.statement), first.next);
    }
}

/// Every declaration moves ahead, read or given up, unless the input has
/// ended.
pub proof fn lemma_declaration_moves(tokens: Seq<TokenView>, pos: int)
    requires
        0 <= pos <= tokens.len(),
    ensures
        pos <= spec_declaration(tokens, pos).next <= tokens.len(),
        kind_at(tokens, pos) != TokenTypeDiscriminants::Eof ==> ahead(
            tokens,
            pos,
            spec_declaration(tokens, pos).next,
        ),
    decreases tokens.len() - pos, 15int,
{
    reveal(spec_declaration);
    reveal(spec_function);
    reveal(spec_statement);
    let kind = kind_at(tokens, pos);
    if kind == TokenTypeDiscriminants::Fun {
        lemma_function_moves(tokens, pos + 1);
        lemma_resume_moves(tokens, spec_function(tokens, pos + 1).next);
        if spec_function(tokens, pos + 1).next + 1 <= tokens.len() {
            lemma_resume_moves(tokens, spec_function(tokens, pos + 1).next + 1);
        }
    } else if kind == TokenTypeDiscriminants::Var {
        lemma_simple_statements_move(tokens, pos + 1);
        lemma_resume_moves(tokens, spec_var_declaration(tokens, pos + 1).next);
        if spec_var_declaration(tokens, pos + 1).next + 1 <= tokens.len() {
            lemma_resume_moves(tokens, spec_var_declaration(tokens, pos + 1).next + 1);
        }
    } else {
        lemma_statement_moves(tokens, pos);
        lemma_resume_moves(tokens, spec_statement(tokens, pos).next);
        if spec_statement(tokens, pos).next + 1 <= tokens.len() {
            lemma_resume_moves(tokens, spec_statement(tokens, pos).next + 1);
        }
    }
}

fn starts_statement(kind: TokenTypeDiscriminants) -> (r: bool)
    ensures
        r == kind.begins_statement(),
{
    kind == TokenTypeDiscriminants::Class || kind == TokenTypeDiscriminants::Fun || kind
        == TokenTypeDiscriminants::Var || kind == TokenTypeDiscriminants::For || kind
        == TokenTypeDiscriminants::If || kind == TokenTypeDiscriminants::While || kind
        == TokenTypeDiscriminants::Print || kind == TokenTypeDiscriminants::Return
}

fn operator_of(level: u8, kind: TokenTypeDiscriminants) -> (r: bool)
    ensures
        r == is_operator(level as int, kind),
{
    if level == 0 {
        kind == TokenTypeDiscriminants::Or
    } else if level == 1 {
        kind == TokenTypeDiscriminants::And
    } else if level == 2 {
        kind == TokenTypeDiscriminants::BangEqual || kind == TokenTypeDiscriminants::EqualEqual
    } else if level == 3 {
        kind == TokenTypeDiscriminants::Greater || kind == TokenTypeDiscriminants::GreaterEqual
            || kind == TokenTypeDiscriminants::Less || kind == TokenTypeDiscriminants::LessEqual
    } else if level == 4 {
        kind == TokenTypeDiscriminants::Minus || kind == TokenTypeDiscriminants::Plus
    } else {
        kind == TokenTypeDiscriminants::Slash || kind == TokenTypeDiscriminants::Star
    }
}

/// Reads a token sequence into statements by recursive descent. A declaration
/// that cannot be read is given up: its error is kept, and reading resumes at
/// the next place where a statement can begin.
#[derive(Debug)]
pub struct Parser {
    tokens: Vec<Token>,
    current: usize,
    errors: Vec<ParseError>,
}

impl Parser {
    /// The tokens to read.
    pub closed spec fn tokens(&self) -> Seq<TokenView> {
        token_views(self.tokens@)
    }

    /// The position of the next token to read.
    pub closed spec fn position(&self) -> int {
        self.current as int
    }

    /// The errors of the declarations given up so far.
    pub closed spec fn reported(&self) -> Seq<ParseError> {
        self.errors@
    }

    /// The parser stands inside its tokens or at their end.
    pub closed spec fn wf(&self) -> bool {
        self.current <= self.tokens.len()
    }

    /// The parser has come from `before` to `pos` and has given up nothing on
    /// the way.
    pub closed spec fn reached(&self, before: &Parser, pos: int) -> bool {
        &&& self.wf()
        &&& self.tokens == before.tokens
        &&& self.errors@ == before.errors@
        &&& before.current <= pos
        &&& self.current == pos
    }

    /// The parser has come from `before` to `pos` and has given up the
    /// declarations whose errors are `errors`.
    pub closed spec fn reached_with(
        &self,
        before: &Parser,
        pos: int,
        errors: Seq<ParseError>,
    ) -> bool {
        &&& self.wf()
        &&& self.tokens == before.tokens
        &&& self.errors@ == before.errors@ + errors
        &&& before.current <= pos
        &&& self.current == pos
    }

    /// A parser at the first of `tokens`.
    pub fn new(tokens: Vec<Token>) -> (r: Parser)
        ensures
            r.wf(),
            r.tokens() == token_views(tokens@),
            r.position() == 0,
            r.reported() == Seq::<ParseError>::empty(),
    {
        Parser { tokens, current: 0, errors: Vec::new() }
    }

    /// Reads the rest of the tokens as a program. The statements are returned
    /// if no declaration had to be given up, now or before; else the errors of
    /// all that were, in the order in which they were found.
    pub fn parse(&mut self) -> (r: Result<Vec<Stmt>, Vec<ParseError>>)
        requires
            old(self).wf(),
        ensures
            final(self).wf(),
            final(self).tokens() == old(self).tokens(),
            final(self).reported() == old(self).reported() + spec_program(
                old(self).tokens(),
                old(self).position(),
            ).errors,
            final(self).reported().len() == 0 ==> r is Ok && stmt_views(r->Ok_0@) == spec_program(
                old(self).tokens(),
                old(self).position(),
            ).statements,
            final(self).reported().len() > 0 ==> r is Err && r->Err_0@ == final(self).reported(),
            kind_at(final(self).tokens(), final(self).position()) == TokenTypeDiscriminants::Eof,
    {
        reveal(spec_program);
        let mut statements: Vec<Stmt> = Vec::new();
        assert(stmt_views(statements@) + spec_program(self.tokens(), self.current as int).statements
            =~= spec_program(self.tokens(), self.current as int).statements);
        assert(self.errors@ + spec_program(self.tokens(), self.current as int).errors
            =~= old(self).errors@ + spec_program(self.tokens(), self.current as int).errors);
        while self.peek_kind() != TokenTypeDiscriminants::Eof
            invariant
                self.wf(),
                self.tokens == old(self).tokens,
                stmt_views(statements@) + spec_program(self.tokens(), self.current as int).statements
                    == spec_program(old(self).tokens(), old(self).position()).statements,
                self.errors@ + spec_program(self.tokens(), self.current as int).errors == old(self).errors@ + spec_program(old(self).tokens(), old(self).position()).errors,
            decreases self.tokens.len() - self.current,
        {
            reveal(spec_program);
            let ghost before_statements = stmt_views(statements@);
            let ghost before_errors = self.errors@;
            let ghost first = spec_declaration(self.tokens(), self.current as int);
            let ghost rest = spec_program(self.tokens(), first.next);
            match self.declaration() {
                Some(s) => {
                    statements.push(s);
                },
                None => {},
            }
            proof {
                assert(stmt_views(statements@) =~= before_statements + kept(first.statement));
                assert(stmt_views(statements@) + rest.statements =~= before_statements + (kept(
                    first.statement,
                ) + rest.statements));
                assert(self.errors@ + rest.errors =~= before_errors + (first.errors + rest.errors));
            }
        }
        proof {
            let last = spec_program(self.tokens(), self.current as int);
            assert(stmt_views(statements@) + last.statements =~= stmt_views(statements@));
            assert(self.errors@ + last.errors =~= self.errors@);
        }
        if self.errors.len() == 0 {
            Ok(statements)
        } else {
            let mut errors: Vec<ParseError> = Vec::new();
            let mut i: usize = 0;
            while i < self.errors.len()
                invariant
                    i <= self.errors.len(),
                    errors@ == self.errors@.subrange(0, i as int),
                decreases self.errors.len() - i,
            {
                reveal(spec_program);
                errors.push(self.errors[i]);
                assert(errors@ =~= self.errors@.subrange(0, i + 1));
                i += 1;
            }
            assert(errors@ =~= self.errors@);
            Err(errors)
        }
    }

    /// declaration := funDecl | varDecl | statement
    fn declaration(&mut self) -> (r: Option<Stmt>)
        requires
            old(self).wf(),
        ensures
            final(self).reached_with(
                old(self),
                spec_declaration(old(self).tokens(), old(self).position()).next,
                spec_declaration(old(self).tokens(), old(self).position()).errors,
            ),
            match spec_declaration(old(self).tokens(), old(self).position()).statement {
                Some(s) => r is Some && r->Some_0@ == s,
                None => r is None,
            },
            kind_at(old(self).tokens(), old(self).position()) != TokenTypeDiscriminants::Eof
                ==> old(self).current < final(self).current,
        decreases old(self).tokens.len() - old(self).current, 15int,
    {
        reveal(spec_declaration);
        reveal(spec_function);
        reveal(spec_statement);
        let kind = self.peek_kind();
        let outcome = if kind == TokenTypeDiscriminants::Fun {
            self.current += 1;
            self.function()
        } else if kind == TokenTypeDiscriminants::Var {
            self.current += 1;
            self.var_declaration()
        } else {
            self.statement()
        };
        match outcome {
            Ok(s) => Some(s),
            Err(error) => {
                self.errors.push(error);
                self.synchronize();
                proof {
                    let ghost o = if kind == TokenTypeDiscriminants::Fun {
                        spec_function(old(self).tokens(), old(self).position() + 1)
                    } else if kind == TokenTypeDiscriminants::Var {
                        spec_var_declaration(old(self).tokens(), old(self).position() + 1)
                    } else {
                        spec_statement(old(self).tokens(), old(self).position())
                    };
                    assert(self.errors@ =~= old(self).errors@ + o.errors.push(error));
                }
                None
            },
        }
    }

    /// varDecl := "var" IDENT ("=" expr)? ";" , after `var`.
    fn var_declaration(&mut self) -> (r: Result<Stmt, ParseError>)
        requires
            old(self).wf(),
        ensures
            final(self).after_statement(
                old(self),
                spec_var_declaration(old(self).tokens(), old(self).position()),
                r,
            ),
            final(self).reached(old(self), final(self).position()),
    {
        reveal(spec_var_declaration);
        if self.peek_kind() != TokenTypeDiscriminants::Identifier {
            return Err(self.missing(TokenTypeDiscriminants::Identifier));
        }
        let name = self.take();
        let initializer = if self.peek_kind() == TokenTypeDiscriminants::Equal {
            self.current += 1;
            match self.expression() {
                Ok(e) => Some(e),
                Err(error) => {
                    return Err(error);
                },
            }
        } else {
            None
        };
        match self.close(TokenTypeDiscriminants::Semicolon) {
            Ok(()) => Ok(Stmt::Var { name, initializer }),
            Err(error) => Err(error),
        }
    }

    /// statement := exprStmt | printStmt | block | ifStmt | whileStmt | forStmt
    ///            | returnStmt
    fn statement(&mut self) -> (r: Result<Stmt, ParseError>)
        requires
            old(self).wf(),
        ensures
            final(self).after_statement(
                old(self),
                spec_statement(old(self).tokens(), old(self).position()),
                r,
            ),
        decreases old(self).tokens.len() - old(self).current, 10int,
    {
        reveal(spec_statement);
        reveal(spec_block_items);
        reveal(spec_if_statement);
        reveal(spec_while_statement);
        reveal(spec_for_statement);
        reveal(spec_print_statement);
        reveal(spec_return_statement);
        reveal(spec_expression_statement);
        let kind = self.peek_kind();
        if kind == TokenTypeDiscriminants::Print {
            self.current += 1;
            match self.expression() {
                Ok(value) => match self.close(TokenTypeDiscriminants::Semicolon) {
                    Ok(()) => Ok(Stmt::Print(Box::new(value))),
                    Err(error) => Err(error),
                },
                Err(error) => Err(error),
            }
        } else if kind == TokenTypeDiscriminants::LeftBrace {
            self.current += 1;
            match self.block() {
                Ok(statements) => {
                    proof {
                        lemma_block_view(statements);
                    }
                    Ok(Stmt::Block(statements))
                },
                Err(error) => Err(error),
            }
        } else if kind == TokenTypeDiscriminants::If {
            self.current += 1;
            self.if_statement()
        } else if kind == TokenTypeDiscriminants::While {
            self.current += 1;
            self.while_statement()
        } else if kind == TokenTypeDiscriminants::For {
            self.current += 1;
            self.for_statement()
        } else if kind == TokenTypeDiscriminants::Return {
            let token = self.take();
            let value = if self.peek_kind() == TokenTypeDiscriminants::Semicolon {
                None
            } else {
                match self.expression() {
                    Ok(e) => Some(e),
                    Err(error) => {
                        return Err(error);
                    },
                }
            };
            match self.close(TokenTypeDiscriminants::Semicolon) {
                Ok(()) => Ok(Stmt::Return { token, value }),
                Err(error) => Err(error),
            }
        } else {
            match self.expression() {
                Ok(value) => match self.close(TokenTypeDiscriminants::Semicolon) {
                    Ok(()) => Ok(Stmt::Expression(Box::new(value))),
                    Err(error) => Err(error),
                },
                Err(error) => Err(error),
            }
        }
    }

    /// "(" expr ")" : the condition of an `if` or a `while`.
    fn condition(&mut self) -> (r: Result<Expr, ParseError>)
        requires
            old(self).wf(),
        ensures
            final(self).after_expression(
                old(self),
                spec_condition(old(self).tokens(), old(self).position()),
                r,
            ),
    {
        reveal(spec_condition);
        match self.close(TokenTypeDiscriminants::LeftParen) {
            Ok(()) => {},
            Err(error) => {
                return Err(error);
            },
        }
        match self.expression() {
            Ok(e) => match self.close(TokenTypeDiscriminants::RightParen) {
                Ok(()) => Ok(e),
                Err(error) => Err(error),
            },
            Err(error) => Err(error),
        }
    }

    /// ifStmt := "if" "(" expr ")" statement ("else" statement)? , after `if`.
    fn if_statement(&mut self) -> (r: Result<Stmt, ParseError>)
        requires
            old(self).wf(),
        ensures
            final(self).after_statement(
                old(self),
                spec_if_statement(old(self).tokens(), old(self).position()),
                r,
            ),
        decreases old(self).tokens.len() - old(self).current, 5int,
    {
        reveal(spec_if_statement);
        reveal(spec_statement);
        let condition = match self.condition() {
            Ok(e) => e,
            Err(error) => {
                return Err(error);
            },
        };
        let ghost first = spec_statement(self.tokens(), self.current as int);
        let then = match self.statement() {
            Ok(s) => s,
            Err(error) => {
                return Err(error);
            },
        };
        if self.peek_kind() == TokenTypeDiscriminants::Else {
            self.current += 1;
            let ghost second = spec_statement(self.tokens(), self.current as int);
            let outcome = self.statement();
            proof {
                assert(self.errors@ =~= old(self).errors@ + (first.errors + second.errors));
            }
            match outcome {
                Ok(els) => Ok(
                    Stmt::If { condition, then: Box::new(then), els: Some(Box::new(els)) },
                ),
                Err(error) => Err(error),
            }
        } else {
            Ok(Stmt::If { condition, then: Box::new(then), els: None })
        }
    }

    /// whileStmt := "while" "(" expr ")" statement , after `while`.
    fn while_statement(&mut self) -> (r: Result<Stmt, ParseError>)
        requires
            old(self).wf(),
        ensures
            final(self).after_statement(
                old(self),
                spec_while_statement(old(self).tokens(), old(self).position()),
                r,
            ),
        decreases old(self).tokens.len() - old(self).current, 5int,
    {
        reveal(spec_while_statement);
        reveal(spec_statement);
        let condition = match self.condition() {
            Ok(e) => e,
            Err(error) => {
                return Err(error);
            },
        };
        match self.statement() {
            Ok(body) => Ok(Stmt::While { condition, body: Box::new(body) }),
            Err(error) => Err(error),
        }
    }

    /// (varDecl | exprStmt | ";") : the first clause of a `for`.
    fn for_initializer(&mut self) -> (r: Result<Option<Stmt>, ParseError>)
        requires
            old(self).wf(),
        ensures
            ({
                let outcome = spec_for_initializer(old(self).tokens(), old(self).position());
                &&& final(self).reached(old(self), outcome.next)
                &&& match outcome.result {
                    Ok(Some(s)) => r is Ok && r->Ok_0 is Some && r->Ok_0->Some_0@ == s,
                    Ok(None) => r is Ok && r->Ok_0 is None,
                    Err(error) => r == Err::<Option<Stmt>, ParseError>(error),
                }
            }),
    {
        reveal(spec_for_initializer);
        reveal(spec_expression_statement);
        let kind = self.peek_kind();
        if kind == TokenTypeDiscriminants::Semicolon {
            self.current += 1;
            Ok(None)
        } else if kind == TokenTypeDiscriminants::Var {
            self.current += 1;
            match self.var_declaration() {
                Ok(s) => Ok(Some(s)),
                Err(error) => Err(error),
            }
        } else {
            match self.expression() {
                Ok(value) => match self.close(TokenTypeDiscriminants::Semicolon) {
                    Ok(()) => Ok(Some(Stmt::Expression(Box::new(value)))),
                    Err(error) => Err(error),
                },
                Err(error) => Err(error),
            }
        }
    }

    /// expr? ";" : the second clause of a `for`.
    fn for_condition(&mut self) -> (r: Result<Expr, ParseError>)
        requires
            old(self).wf(),
        ensures
            final(self).after_expression(
                old(self),
                spec_for_condition(old(self).tokens(), old(self).position()),
                r,
            ),
    {
        reveal(spec_for_condition);
        if self.peek_kind() == TokenTypeDiscriminants::Semicolon {
            self.current += 1;
            Ok(Expr::Literal(Literal::Boolean(true)))
        } else {
            match self.expression() {
                Ok(e) => match self.close(TokenTypeDiscriminants::Semicolon) {
                    Ok(()) => Ok(e),
                    Err(error) => Err(error),
                },
                Err(error) => Err(error),
            }
        }
    }

    /// expr? ")" : the third clause of a `for`.
    fn for_increment(&mut self) -> (r: Result<Option<Expr>, ParseError>)
        requires
            old(self).wf(),
        ensures
            match spec_for_increment(old(self).tokens(), old(self).position()) {
                Parsed::Done { node, next } => {
                    &&& final(self).reached(old(self), next)
                    &&& old(self).current < next
                    &&& match node {
                        Some(e) => r is Ok && r->Ok_0 is Some && r->Ok_0->Some_0@ == e,
                        None => r is Ok && r->Ok_0 is None,
                    }
                },
                Parsed::Failed { error, at } => r == Err::<Option<Expr>, ParseError>(error)
                    && final(self).reached(old(self), at),
            },
    {
        reveal(spec_for_increment);
        if self.peek_kind() == TokenTypeDiscriminants::RightParen {
            self.current += 1;
            Ok(None)
        } else {
            match self.expression() {
                Ok(e) => match self.close(TokenTypeDiscriminants::RightParen) {
                    Ok(()) => Ok(Some(e)),
                    Err(error) => Err(error),
                },
                Err(error) => Err(error),
            }
        }
    }

    /// forStmt := "for" "(" (varDecl | exprStmt | ";") expr? ";" expr? ")"
    /// statement , after `for`.
    fn for_statement(&mut self) -> (r: Result<Stmt, ParseError>)
        requires
            old(self).wf(),
        ensures
            final(self).after_statement(
                old(self),
                spec_for_statement(old(self).tokens(), old(self).position()),
                r,
            ),
        decreases old(self).tokens.len() - old(self).current, 5int,
    {
        reveal(spec_for_statement);
        reveal(spec_statement);
        match self.close(TokenTypeDiscriminants::LeftParen) {
            Ok(()) => {},
            Err(error) => {
                return Err(error);
            },
        }
        let initializer = match self.for_initializer() {
            Ok(s) => s,
            Err(error) => {
                return Err(error);
            },
        };
        let condition = match self.for_condition() {
            Ok(e) => e,
            Err(error) => {
                return Err(error);
            },
        };
        let increment = match self.for_increment() {
            Ok(e) => e,
            Err(error) => {
                return Err(error);
            },
        };
        let body = match self.statement() {
            Ok(s) => s,
            Err(error) => {
                return Err(error);
            },
        };
        let ghost body_view = body@;
        let repeated = match increment {
            Some(step) => {
                let ghost step_view = step@;
                let mut items: Vec<Stmt> = Vec::new();
                items.push(body);
                items.push(Stmt::Expression(Box::new(step)));
                proof {
                    lemma_block_view(items);
                    assert(stmt_views(items@) =~= seq![
                        body_view,
                        StmtView::Expression(step_view),
                    ]);
                }
                Stmt::Block(items)
            },
            None => body,
        };
        let looping = Stmt::While { condition, body: Box::new(repeated) };
        let ghost looping_view = looping@;
        match initializer {
            Some(first) => {
                let ghost first_view = first@;
                let mut items: Vec<Stmt> = Vec::new();
                items.push(first);
                items.push(looping);
                proof {
                    lemma_block_view(items);
                    assert(stmt_views(items@) =~= seq![first_view, looping_view]);
                }
                Ok(Stmt::Block(items))
            },
            None => Ok(looping),
        }
    }

    /// "(" params? ")" "{" : the head of a function after its name.
    fn parameters(&mut self) -> (r: Result<Vec<Token>, ParseError>)
        requires
            old(self).wf(),
        ensures
            match spec_parameters(old(self).tokens(), old(self).position()) {
                Parsed::Done { node, next } => {
                    &&& r is Ok
                    &&& token_views(r->Ok_0@) == node
                    &&& final(self).reached(old(self), next)
                    &&& old(self).current < next
                },
                Parsed::Failed { error, at } => r == Err::<Vec<Token>, ParseError>(error)
                    && final(self).reached(old(self), at),
            },
    {
        reveal(spec_parameters);
        reveal(spec_parameters_tail);
        match self.close(TokenTypeDiscriminants::LeftParen) {
            Ok(()) => {},
            Err(error) => {
                return Err(error);
            },
        }
        let mut params: Vec<Token> = Vec::new();
        assert(token_views(params@) =~= Seq::<TokenView>::empty());
        if self.peek_kind() == TokenTypeDiscriminants::RightParen {
            self.current += 1;
        } else {
            loop
                invariant_except_break
                    self.wf(),
                    self.tokens == old(self).tokens,
                    self.errors@ == old(self).errors@,
                    old(self).current < self.current,
                    spec_parameters(old(self).tokens(), old(self).position()) == spec_body_opens(
                        self.tokens(),
                        spec_parameters_tail(
                            self.tokens(),
                            token_views(params@),
                            self.current as int,
                        ),
                    ),
                ensures
                    self.wf(),
                    self.tokens == old(self).tokens,
                    self.errors@ == old(self).errors@,
                    old(self).current < self.current,
                    spec_parameters(old(self).tokens(), old(self).position()) == spec_body_opens(
                        self.tokens(),
                        Parsed::Done { node: token_views(params@), next: self.current as int },
                    ),
                decreases self.tokens.len() - self.current,
            {
                reveal(spec_parameters);
                reveal(spec_parameters_tail);
                if params.len() >= 255 {
                    return Err(ParseError::TooManyParameters { line: self.line_here() });
                }
                if self.peek_kind() != TokenTypeDiscriminants::Identifier {
                    return Err(self.missing(TokenTypeDiscriminants::Identifier));
                }
                let ghost before = token_views(params@);
                let name = self.take();
                params.push(name);
                assert(token_views(params@) =~= before.push(name@));
                let kind = self.peek_kind();
                if kind == TokenTypeDiscriminants::Comma {
                    self.current += 1;
                } else if kind == TokenTypeDiscriminants::RightParen {
                    self.current += 1;
                    break ;
                } else {
                    return Err(self.missing(TokenTypeDiscriminants::RightParen));
                }
            }
        }
        match self.close(TokenTypeDiscriminants::LeftBrace) {
            Ok(()) => Ok(params),
            Err(error) => Err(error),
        }
    }

    /// funDecl := "fun" IDENT "(" params? ")" block , after `fun`.
    fn function(&mut self) -> (r: Result<Stmt, ParseError>)
        requires
            old(self).wf(),
        ensures
            final(self).after_statement(
                old(self),
                spec_function(old(self).tokens(), old(self).position()),
                r,
            ),
        decreases old(self).tokens.len() - old(self).current, 5int,
    {
        reveal(spec_function);
        reveal(spec_block_items);
        if self.peek_kind() != TokenTypeDiscriminants::Identifier {
            return Err(self.missing(TokenTypeDiscriminants::Identifier));
        }
        let name = self.take();
        let params = match self.parameters() {
            Ok(p) => p,
            Err(error) => {
                return Err(error);
            },
        };
        match self.block() {
            Ok(body) => {
                proof {
                    lemma_function_view(name, params, body);
                }
                Ok(Stmt::Function { name, params, body })
            },
            Err(error) => Err(error),
        }
    }

    /// block := "{" declaration* "}" , after the `{`.
    fn block(&mut self) -> (r: Result<Vec<Stmt>, ParseError>)
        requires
            old(self).wf(),
        ensures
            ({
                let outcome = spec_block_items(
                    old(self).tokens(),
                    Seq::empty(),
                    old(self).position(),
                );
                &&& final(self).reached_with(old(self), outcome.next, outcome.errors)
                &&& match outcome.result {
                    Ok(statements) => r is Ok && stmt_views(r->Ok_0@) == statements && old(self).current < final(self).current,
                    Err(error) => r == Err::<Vec<Stmt>, ParseError>(error),
                }
            }),
        decreases old(self).tokens.len() - old(self).current, 20int,
    {
        reveal(spec_block_items);
        reveal(spec_declaration);
        let mut statements: Vec<Stmt> = Vec::new();
        let ghost whole = spec_block_items(old(self).tokens(), Seq::empty(), old(self).position());
        assert(stmt_views(statements@) =~= Seq::<StmtView>::empty());
        assert(self.errors@ + whole.errors =~= old(self).errors@ + whole.errors);
        loop
            invariant
                self.wf(),
                self.tokens == old(self).tokens,
                old(self).current <= self.current,
                whole == spec_block_items(old(self).tokens(), Seq::empty(), old(self).position()),
                spec_block_items(
                    self.tokens(),
                    stmt_views(statements@),
                    self.current as int,
                ).result == whole.result,
                spec_block_items(self.tokens(), stmt_views(statements@), self.current as int).next
                    == whole.next,
                self.errors@ + spec_block_items(
                    self.tokens(),
                    stmt_views(statements@),
                    self.current as int,
                ).errors == old(self).errors@ + whole.errors,
            decreases self.tokens.len() - self.current,
        {
            reveal(spec_block_items);
            reveal(spec_declaration);
            let kind = self.peek_kind();
            if kind == TokenTypeDiscriminants::RightBrace {
                self.current += 1;
                proof {
                    assert(self.errors@ + Seq::<ParseError>::empty() =~= self.errors@);
                }
                return Ok(statements);
            }
            if kind == TokenTypeDiscriminants::Eof {
                proof {
                    assert(self.errors@ + Seq::<ParseError>::empty() =~= self.errors@);
                }
                return Err(self.missing(TokenTypeDiscriminants::RightBrace));
            }
            let ghost before_statements = stmt_views(statements@);
            let ghost before_errors = self.errors@;
            let ghost first = spec_declaration(self.tokens(), self.current as int);
            let ghost rest = spec_block_items(
                self.tokens(),
                before_statements + kept(first.statement),
                first.next,
            );
            match self.declaration() {
                Some(s) => {
                    statements.push(s);
                },
                None => {},
            }
            proof {
                assert(stmt_views(statements@) =~= before_statements + kept(first.statement));
                assert(self.errors@ + rest.errors =~= before_errors + (first.errors + rest.errors));
            }
        }
    }

    /// expr := assignment
    fn expression(&mut self) -> (r: Result<Expr, ParseError>)
        requires
            old(self).wf(),
        ensures
            final(self).after_expression(
                old(self),
                spec_expression(old(self).tokens(), old(self).position()),
                r,
            ),
        decreases old(self).tokens.len() - old(self).current, 33int,
    {
        reveal(spec_expression);
        reveal(spec_assignment);
        self.assignment()
    }

    /// assignment := IDENT "=" assignment | logic_or
    fn assignment(&mut self) -> (r: Result<Expr, ParseError>)
        requires
            old(self).wf(),
        ensures
            final(self).after_expression(
                old(self),
                spec_assignment(old(self).tokens(), old(self).position()),
                r,
            ),
        decreases old(self).tokens.len() - old(self).current, 32int,
    {
        reveal(spec_assignment);
        reveal(spec_binary);
        let target = match self.binary(0) {
            Ok(e) => e,
            Err(error) => {
                return Err(error);
            },
        };
        if self.peek_kind() == TokenTypeDiscriminants::Equal {
            let line = self.line_here();
            self.current += 1;
            let value = match self.assignment() {
                Ok(e) => e,
                Err(error) => {
                    return Err(error);
                },
            };
            match target {
                Expr::Variable(name) => Ok(Expr::Assign { name, value: Box::new(value) }),
                _ => Err(ParseError::InvalidAssignmentTarget { line }),
            }
        } else {
            Ok(target)
        }
    }

    /// operand (operator operand)* for the operators of `level`: `or`, `and`,
    /// equality, comparison, term and factor are the levels 0 to 5.
    fn binary(&mut self, level: u8) -> (r: Result<Expr, ParseError>)
        requires
            old(self).wf(),
            level <= 5,
        ensures
            final(self).after_expression(
                old(self),
                spec_binary(level as int, old(self).tokens(), old(self).position()),
                r,
            ),
        decreases old(self).tokens.len() - old(self).current, 30 - 2 * level,
    {
        reveal(spec_binary);
        reveal(spec_binary_tail);
        reveal(spec_operand);
        let mut expr = match self.operand(level) {
            Ok(e) => e,
            Err(error) => {
                return Err(error);
            },
        };
        while operator_of(level, self.peek_kind())
            invariant
                self.wf(),
                self.tokens == old(self).tokens,
                self.errors@ == old(self).errors@,
                level <= 5,
                old(self).current < self.current,
                spec_binary(level as int, old(self).tokens(), old(self).position())
                    == spec_binary_tail(level as int, self.tokens(), expr@, self.current as int),
            decreases self.tokens.len() - self.current,
        {
            reveal(spec_binary);
            reveal(spec_binary_tail);
            reveal(spec_operand);
            let operator = self.take();
            match self.operand(level) {
                Ok(right) => {
                    expr = if level <= 1 {
                        Expr::Logical { left: Box::new(expr), operator, right: Box::new(right) }
                    } else {
                        Expr::Binary { left: Box::new(expr), operator, right: Box::new(right) }
                    };
                },
                Err(error) => {
                    return Err(error);
                },
            }
        }
        Ok(expr)
    }

    /// An operand of the operators of `level`.
    fn operand(&mut self, level: u8) -> (r: Result<Expr, ParseError>)
        requires
            old(self).wf(),
            level <= 5,
        ensures
            final(self).after_expression(
                old(self),
                spec_operand(level as int, old(self).tokens(), old(self).position()),
                r,
            ),
        decreases old(self).tokens.len() - old(self).current, 29 - 2 * level,
    {
        reveal(spec_operand);
        reveal(spec_binary);
        reveal(spec_unary);
        if level < 5 {
            self.binary(level + 1)
        } else {
            self.unary()
        }
    }

    /// unary := ("!" | "-") unary | call
    fn unary(&mut self) -> (r: Result<Expr, ParseError>)
        requires
            old(self).wf(),
        ensures
            final(self).after_expression(
                old(self),
                spec_unary(old(self).tokens(), old(self).position()),
                r,
            ),
        decreases old(self).tokens.len() - old(self).current, 16int,
    {
        reveal(spec_unary);
        reveal(spec_call);
        let kind = self.peek_kind();
        if kind == TokenTypeDiscriminants::Bang || kind == TokenTypeDiscriminants::Minus {
            let operator = self.take();
            match self.unary() {
                Ok(right) => Ok(Expr::Unary { operator, right: Box::new(right) }),
                Err(error) => Err(error),
            }
        } else {
            self.call()
        }
    }

    /// call := primary ("(" args? ")")*
    fn call(&mut self) -> (r: Result<Expr, ParseError>)
        requires
            old(self).wf(),
        ensures
            final(self).after_expression(
                old(self),
                spec_call(old(self).tokens(), old(self).position()),
                r,
            ),
        decreases old(self).tokens.len() - old(self).current, 15int,
    {
        reveal(spec_call);
        reveal(spec_call_tail);
        reveal(spec_primary);
        reveal(spec_arguments);
        let mut expr = match self.primary() {
            Ok(e) => e,
            Err(error) => {
                return Err(error);
            },
        };
        while self.peek_kind() == TokenTypeDiscriminants::LeftParen
            invariant
                self.wf(),
                self.tokens == old(self).tokens,
                self.errors@ == old(self).errors@,
                old(self).current < self.current,
                spec_call(old(self).tokens(), old(self).position()) == spec_call_tail(
                    self.tokens(),
                    expr@,
                    self.current as int,
                ),
            decreases self.tokens.len() - self.current,
        {
            reveal(spec_call);
            reveal(spec_call_tail);
            reveal(spec_primary);
            reveal(spec_arguments);
            self.current += 1;
            let arguments = match self.arguments() {
                Ok(list) => list,
                Err(error) => {
                    return Err(error);
                },
            };
            let paren = self.tokens[self.current - 1].duplicate();
            proof {
                lemma_call_view(expr, paren, arguments);
            }
            expr = Expr::Call { callee: Box::new(expr), paren, arguments };
        }
        Ok(expr)
    }

    /// args? ")" : the arguments of a call, after its `(`.
    fn arguments(&mut self) -> (r: Result<Vec<Expr>, ParseError>)
        requires
            old(self).wf(),
        ensures
            match spec_arguments(old(self).tokens(), old(self).position()) {
                Parsed::Done { node, next } => {
                    &&& r is Ok
                    &&& expr_views(r->Ok_0@) == node
                    &&& final(self).reached(old(self), next)
                    &&& old(self).current < next
                },
                Parsed::Failed { error, at } => r == Err::<Vec<Expr>, ParseError>(error)
                    && final(self).reached(old(self), at),
            },
        decreases old(self).tokens.len() - old(self).current, 41int,
    {
        reveal(spec_arguments);
        reveal(spec_arguments_tail);
        reveal(spec_expression);
        let mut list: Vec<Expr> = Vec::new();
        assert(expr_views(list@) =~= Seq::<ExprView>::empty());
        if self.peek_kind() == TokenTypeDiscriminants::RightParen {
            self.current += 1;
            return Ok(list);
        }
        loop
            invariant
                self.wf(),
                self.tokens == old(self).tokens,
                self.errors@ == old(self).errors@,
                old(self).current <= self.current,
                spec_arguments(old(self).tokens(), old(self).position()) == spec_arguments_tail(
                    self.tokens(),
                    expr_views(list@),
                    self.current as int,
                ),
            decreases self.tokens.len() - self.current,
        {
            reveal(spec_arguments);
            reveal(spec_arguments_tail);
            reveal(spec_expression);
            if list.len() >= 255 {
                return Err(ParseError::TooManyArguments { line: self.line_here() });
            }
            let ghost before = expr_views(list@);
            let e = match self.expression() {
                Ok(e) => e,
                Err(error) => {
                    return Err(error);
                },
            };
            list.push(e);
            assert(expr_views(list@) =~= before.push(e@));
            let kind = self.peek_kind();
            if kind == TokenTypeDiscriminants::Comma {
                self.current += 1;
            } else if kind == TokenTypeDiscriminants::RightParen {
                self.current += 1;
                return Ok(list);
            } else {
                return Err(self.missing(TokenTypeDiscriminants::RightParen));
            }
        }
    }

    /// primary := "true" | "false" | "nil" | NUMBER | STRING | "(" expr ")" | IDENT
    fn primary(&mut self) -> (r: Result<Expr, ParseError>)
        requires
            old(self).wf(),
        ensures
            final(self).after_expression(
                old(self),
                spec_primary(old(self).tokens(), old(self).position()),
                r,
            ),
        decreases old(self).tokens.len() - old(self).current, 14int,
    {
        reveal(spec_primary);
        reveal(spec_expression);
        let kind = self.peek_kind();
        if kind == TokenTypeDiscriminants::False {
            self.current += 1;
            Ok(Expr::Literal(Literal::Boolean(false)))
        } else if kind == TokenTypeDiscriminants::True {
            self.current += 1;
            Ok(Expr::Literal(Literal::Boolean(true)))
        } else if kind == TokenTypeDiscriminants::Nil {
            self.current += 1;
            Ok(Expr::Literal(Literal::Nil))
        } else if kind == TokenTypeDiscriminants::Number {
            let digits = self.tokens[self.current].token_type.text();
            self.current += 1;
            Ok(Expr::Literal(Literal::Number(digits)))
        } else if kind == TokenTypeDiscriminants::String {
            let text = self.tokens[self.current].token_type.text();
            self.current += 1;
            Ok(Expr::Literal(Literal::String(text)))
        } else if kind == TokenTypeDiscriminants::Identifier {
            let name = self.take();
            Ok(Expr::Variable(name))
        } else if kind == TokenTypeDiscriminants::LeftParen {
            self.current += 1;
            match self.expression() {
                Ok(inner) => match self.close(TokenTypeDiscriminants::RightParen) {
                    Ok(()) => Ok(Expr::Grouping { grouping: Box::new(inner) }),
                    Err(error) => Err(error),
                },
                Err(error) => Err(error),
            }
        } else {
            Err(ParseError::ExpectedExpression { found: kind, line: self.line_here() })
        }
    }

    /// What holds after an expression was read, or was not.
    pub closed spec fn after_expression(
        &self,
        before: &Parser,
        parsed: Parsed<ExprView>,
        r: Result<Expr, ParseError>,
    ) -> bool {
        match parsed {
            Parsed::Done { node, next } => {
                &&& r is Ok
                &&& r->Ok_0@ == node
                &&& self.reached(before, next)
                &&& before.current < next
            },
            Parsed::Failed { error, at } => r == Err::<Expr, ParseError>(error) && self.reached(
                before,
                at,
            ),
        }
    }

    /// What holds after a statement was read, or was not.
    pub closed spec fn after_statement(
        &self,
        before: &Parser,
        outcome: Outcome<StmtView>,
        r: Result<Stmt, ParseError>,
    ) -> bool {
        &&& self.reached_with(before, outcome.next, outcome.errors)
        &&& match outcome.result {
            Ok(s) => r is Ok && r->Ok_0@ == s && before.current < self.current,
            Err(error) => r == Err::<Stmt, ParseError>(error),
        }
    }

    /// The kind of the token that comes next; at the end, the end of input.
    pub fn peek_kind(&self) -> (k: TokenTypeDiscriminants)
        requires
            self.wf(),
        ensures
            k == kind_at(self.tokens(), self.position()),
    {
        if self.current < self.tokens.len() {
            self.tokens[self.current].kind()
        } else {
            TokenTypeDiscriminants::Eof
        }
    }

    /// The line of the token that comes next.
    fn line_here(&self) -> (l: usize)
        requires
            self.wf(),
        ensures
            l == line_at(self.tokens(), self.position()),
    {
        if self.current < self.tokens.len() {
            self.tokens[self.current].line
        } else if self.tokens.len() > 0 {
            self.tokens[self.tokens.len() - 1].line
        } else {
            1
        }
    }

    /// The error of a token of kind `expected` that does not come next.
    fn missing(&self, expected: TokenTypeDiscriminants) -> (e: ParseError)
        requires
            self.wf(),
        ensures
            e == missing(self.tokens(), self.position(), expected),
    {
        ParseError::ExpectedToken { expected, found: self.peek_kind(), line: self.line_here() }
    }

    /// Passes a token of `kind`, or fails where another comes next.
    fn close(&mut self, kind: TokenTypeDiscriminants) -> (r: Result<(), ParseError>)
        requires
            old(self).wf(),
        ensures
            final(self).wf(),
            final(self).tokens == old(self).tokens,
            final(self).errors@ == old(self).errors@,
            kind_at(old(self).tokens(), old(self).position()) == kind ==> r is Ok && (if kind
                == TokenTypeDiscriminants::Eof {
                final(self).current == old(self).current
            } else {
                final(self).current == old(self).current + 1
            }),
            kind_at(old(self).tokens(), old(self).position()) != kind ==> r == Err::<
                (),
                ParseError,
            >(missing(old(self).tokens(), old(self).position(), kind)) && final(self).current
                == old(self).current,
    {
        if self.peek_kind() == kind {
            if self.current < self.tokens.len() && kind != TokenTypeDiscriminants::Eof {
                self.current += 1;
            }
            Ok(())
        } else {
            Err(self.missing(kind))
        }
    }

    /// Passes the token that comes next and returns a copy of it.
    fn take(&mut self) -> (r: Token)
        requires
            old(self).wf(),
            old(self).current < old(self).tokens.len(),
        ensures
            final(self).wf(),
            final(self).tokens == old(self).tokens,
            final(self).errors@ == old(self).errors@,
            final(self).current == old(self).current + 1,
            r == old(self).tokens@[old(self).current as int],
            r@ == old(self).tokens()[old(self).position()],
    {
        self.current += 1;
        self.tokens[self.current - 1].duplicate()
    }

    /// Passes the token that comes next, if one is left, and returns a copy of
    /// it.
    pub fn next(&mut self) -> (r: Option<Token>)
        requires
            old(self).wf(),
        ensures
            final(self).wf(),
            final(self).tokens() == old(self).tokens(),
            final(self).reported() == old(self).reported(),
            old(self).position() < old(self).tokens().len() ==> r is Some && r->Some_0@ == old(self).tokens()[old(self).position()] && final(self).position() == old(self).position()
                + 1,
            old(self).position() >= old(self).tokens().len() ==> r is None && final(self).position() == old(self).position(),
    {
        if self.current < self.tokens.len() {
            Some(self.take())
        } else {
            None
        }
    }

    /// A copy of the token that comes next; none at the end of input.
    pub fn peek(&self) -> (r: Option<Token>)
        requires
            self.wf(),
        ensures
            kind_at(self.tokens(), self.position()) != TokenTypeDiscriminants::Eof ==> r is Some
                && r->Some_0@ == self.tokens()[self.position()],
            kind_at(self.tokens(), self.position()) == TokenTypeDiscriminants::Eof ==> r is None,
    {
        if self.peek_kind() != TokenTypeDiscriminants::Eof {
            Some(self.tokens[self.current].duplicate())
        } else {
            None
        }
    }

    /// A copy of the token that was passed last; none at the first token.
    pub fn prev(&self) -> (r: Option<Token>)
        requires
            self.wf(),
        ensures
            self.position() > 0 ==> r is Some && r->Some_0@ == self.tokens()[self.position() - 1],
            self.position() == 0 ==> r is None,
    {
        if self.current > 0 {
            Some(self.tokens[self.current - 1].duplicate())
        } else {
            None
        }
    }

    /// Passes the token that comes next if it is of `kind`, and returns a copy
    /// of it. The end of input is never passed.
    pub fn next_if(&mut self, kind: TokenTypeDiscriminants) -> (r: Option<Token>)
        requires
            old(self).wf(),
        ensures
            final(self).wf(),
            final(self).tokens() == old(self).tokens(),
            final(self).reported() == old(self).reported(),
            (kind_at(old(self).tokens(), old(self).position()) == kind && kind
                != TokenTypeDiscriminants::Eof) ==> r is Some && r->Some_0@ == old(self).tokens()[old(self).position()] && final(self).position() == old(self).position()
                + 1,
            !(kind_at(old(self).tokens(), old(self).position()) == kind && kind
                != TokenTypeDiscriminants::Eof) ==> r is None && final(self).position() == old(self).position(),
    {
        if kind != TokenTypeDiscriminants::Eof && self.peek_kind() == kind {
            self.next()
        } else {
            None
        }
    }

    /// Gives up the tokens of a declaration that could not be read: the one
    /// that comes next, and then every token until a semicolon has just been
    /// passed or a token that begins a statement comes next.
    pub fn synchronize(&mut self)
        requires
            old(self).wf(),
        ensures
            final(self).wf(),
            final(self).tokens() == old(self).tokens(),
            final(self).reported() == old(self).reported(),
            final(self).position() == spec_synchronize(old(self).tokens(), old(self).position()),
            final(self).position() >= old(self).position(),
            kind_at(old(self).tokens(), old(self).position()) != TokenTypeDiscriminants::Eof
                ==> final(self).position() > old(self).position(),
            final(self).reached(old(self), final(self).position()),
    {
        reveal(spec_resume);
        if self.peek_kind() == TokenTypeDiscriminants::Eof {
            return ;
        }
        self.current += 1;
        while !self.may_resume()
            invariant
                self.wf(),
                self.tokens == old(self).tokens,
                self.errors@ == old(self).errors@,
                old(self).current < self.current,
                spec_resume(self.tokens(), self.current as int) == spec_resume(
                    old(self).tokens(),
                    old(self).position() + 1,
                ),
            decreases self.tokens.len() - self.current,
        {
            reveal(spec_resume);
            self.current += 1;
        }
    }

    /// Whether the parser may resume where it stands.
    fn may_resume(&self) -> (r: bool)
        requires
            self.wf(),
            self.current > 0,
        ensures
            r == (kind_at(self.tokens(), self.position()) == TokenTypeDiscriminants::Eof || kind_at(
                self.tokens(),
                self.position() - 1,
            ) == TokenTypeDiscriminants::Semicolon || kind_at(
                self.tokens(),
                self.position(),
            ).begins_statement()),
    {
        let kind = self.peek_kind();
        kind == TokenTypeDiscriminants::Eof || self.tokens[self.current - 1].kind()
            == TokenTypeDiscriminants::Semicolon || starts_statement(kind)
    }
}

} // verus!
