use crate::token::{Token, TokenTypeDiscriminants, TokenView};
use vstd::prelude::*;

verus! {

/// A place in the source: the line (counted from 1) and the offset of a
/// character (counted from 0).
#[derive(Clone, Copy, Debug, PartialEq, Eq, Structural)]
pub struct ErrorLoc {
    pub line: usize,
    pub at: usize,
}

/// Why a source text was refused by the scanner or the parser.
#[derive(Clone, Copy, Debug, PartialEq, Eq, Structural)]
pub enum ParseError {
    /// A string literal that begins at the given place is never closed.
    UnterminatedString(ErrorLoc),
    /// The text is not a reserved word.
    UnknownTokenType,
    /// A character that begins no token.
    UnexpectedCharacter { character: char, line: usize },
    /// The grammar asks for a token of kind `expected`; `found` stands there.
    ExpectedToken { expected: TokenTypeDiscriminants, found: TokenTypeDiscriminants, line: usize },
    /// An expression must begin here; no expression begins with `found`.
    ExpectedExpression { found: TokenTypeDiscriminants, line: usize },
    /// The left side of the `=` on this line is not a variable.
    InvalidAssignmentTarget { line: usize },
    /// A call with more than 255 arguments.
    TooManyArguments { line: usize },
    /// A function with more than 255 parameters.
    TooManyParameters { line: usize },
}

/// Why an operator refused its operands. The kind is that of the operator.
#[derive(Clone, Copy, Debug, PartialEq, Eq, Structural)]
pub enum EvaluationError {
    /// An ordering applied to anything but two numbers or two strings.
    Comparision(TokenTypeDiscriminants),
    /// Unary minus applied to anything but a number.
    Negation,
    /// Arithmetic applied to anything but two numbers.
    Arithmatic(TokenTypeDiscriminants),
    /// `+` with a string on one side only.
    StringConcatination,
    /// The token is no operator of the kind that was applied.
    Operator(TokenTypeDiscriminants),
}

/// Why a program stopped while it ran.
#[derive(Clone, Debug, PartialEq)]
pub enum RuntimeError {
    /// No scope in sight binds the name.
    UndefinedVariable(String),
    /// A token stands where it cannot be used: a name without text, or an
    /// operator that is none.
    UnexpectedToken(Token),
    /// An operator refused its operands.
    Evaluation(EvaluationError),
    /// What was called is no function.
    NotCallable,
    /// A function of `expected` parameters was called with `found` arguments.
    Arity { expected: usize, found: usize },
    /// A scope was named that does not exist.
    ScopeDepth(usize),
    /// A value that an operation needs was never supplied.
    MissingOperand,
    /// The function of this name was declared with more than 255 parameters.
    TooManyParameters(Token),
}

/// The mathematical content of a [`RuntimeError`].
pub enum RuntimeErrorView {
    UndefinedVariable(Seq<char>),
    UnexpectedToken(TokenView),
    Evaluation(EvaluationError),
    NotCallable,
    Arity { expected: usize, found: usize },
    ScopeDepth(usize),
    MissingOperand,
    TooManyParameters(TokenView),
}

impl View for RuntimeError {
    type V = RuntimeErrorView;

    open spec fn view(&self) -> RuntimeErrorView {
        match self {
            RuntimeError::UndefinedVariable(name) => RuntimeErrorView::UndefinedVariable(name@),
            RuntimeError::UnexpectedToken(token) => RuntimeErrorView::UnexpectedToken(token@),
            RuntimeError::Evaluation(error) => RuntimeErrorView::Evaluation(*error),
            RuntimeError::NotCallable => RuntimeErrorView::NotCallable,
            RuntimeError::Arity { expected, found } => RuntimeErrorView::Arity {
                expected: *expected,
                found: *found,
            },
            RuntimeError::ScopeDepth(depth) => RuntimeErrorView::ScopeDepth(*depth),
            RuntimeError::MissingOperand => RuntimeErrorView::MissingOperand,
            RuntimeError::TooManyParameters(name) => RuntimeErrorView::TooManyParameters(name@),
        }
    }
}

} // verus!
