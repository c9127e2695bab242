pub mod errors;
pub mod lox;
pub mod parser;
pub mod tokenizer;

pub use errors::{LoxError, LoxErrorKind, LoxResult, SyntaxProblem};
pub use lox::{Lox, Session};
pub use parser::{AstNode, AstNodeIterator, Parser};
pub use tokenizer::{Token, TokenIterator, TokenKind, Tokenizer};
