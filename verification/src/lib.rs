/// Expressions and statements, and the prefix form in which expressions are
/// written out.
pub mod ast;
/// That a call gives what its body returns.
pub mod call_outcome;
/// That every function which a machine has made has the scopes it captured.
pub mod closures;
/// The values of a running program and what the operators make of them.
pub mod data_types;
/// The scopes of a running program: which are held, which are in sight, and
/// what they bind.
pub mod environment;
/// What a source text is refused for, and what a running program fails with.
pub mod error;
/// Two laws of the evaluator that hold of whole runs: the tasks below do not
/// matter, and what follows from that for `print`, `or` and `and`.
pub mod framing;
/// The evaluator: a machine that walks the syntax tree step by step and asks
/// its host for what it cannot do itself.
pub mod interpreter;
/// Doubles by their bits: sign, order and equality.
pub mod number;
/// That a block adds no name to the scopes around it.
pub mod outer_names;
/// The grammar and the recursive-descent parser that reads it.
pub mod parser;
/// Which expressions read back from their prefix form, and that they do.
pub mod round_trip;
/// The lexical grammar and the scanner that reads it.
pub mod scanner;
/// The source text of an expression, and that it reads back as the
/// expression.
pub mod source_form;
/// That every expression read from the tokens of a source has a source
/// text that reads back.
pub mod scanned_form;
/// A law of the evaluator that holds of whole runs: the scopes in sight
/// follow the tasks.
pub mod scope_discipline;
/// Strings and characters.
pub mod text;
/// Tokens.
pub mod token;
