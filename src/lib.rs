/// Byte ranges into the source text.
pub mod span;
/// Splitting source text into tokens.
pub mod lexer;
/// The syntax tree, and what its spans promise.
pub mod ast;
/// Parsing tokens into definitions, with every independent error reported.
pub mod parser;
/// Types as the later compilation stage refers to them.
pub mod types;
