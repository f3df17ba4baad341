//! Arithmetic expressions of operands, `+ - * / ^` and parentheses: from
//! text to tokens, from tokens to a binary syntax tree, and from the tree
//! back to text with every pair of parentheses written out.
//!
//! - `lexer` splits a source into tokens.
//! - `operator` holds the operators with their rank and grouping.
//! - `ast` holds the tree and its text.
//! - `parser` reads tokens into a tree by precedence climbing.
//!
//! The other modules hold no code that runs, only what is proved of it:
//!
//! - `splitting`: what separators and whitespace do to the tokens.
//! - `grammar`: what an expression is, and that the parser reads the
//!   expressions and nothing else.
//! - `failures`: tokens that are no expression, and the failure of each
//!   kind.
//! - `grouping`: how two operators in a row group.
//! - `round_trip`: that the text of a tree is read as that tree.
//! - `nesting`: that a tree is as deep as the parentheses of its text.
//!
//! No expression is evaluated: an operand is any text that is not an
//! operator or a parenthesis, and it is kept as written.

pub mod ast;
pub mod failures;
pub mod grammar;
pub mod grouping;
pub mod lexer;
pub mod nesting;
pub mod operator;
pub mod parser;
pub mod round_trip;
pub mod splitting;

pub use ast::{AstNode, AstTree};
pub use lexer::{tokenize, SEPARATOR_LIST};
pub use operator::{Associativity, Operator};
pub use parser::ParseError;
