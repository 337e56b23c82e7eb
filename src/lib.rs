//! An interpreter for a small combinatory language: lexer, parser,
//! a memoising lazy evaluator over an expression graph, the bit-signal
//! wire codec, the image extractor, and the decision step of the
//! interaction protocol.
pub mod ast;
pub mod draw;
pub mod eval;
pub mod game;
pub mod interact;
pub mod lex;
pub mod parse;
pub mod semantics;
pub mod show;
pub mod token;
pub mod transport;

pub use ast::Value;
pub use eval::eval;
pub use interact::interact;
pub use lex::lex;
pub use token::Token;
