//! A lexer and recursive-descent parser for CGX, a small configuration
//! language of nested parenthesised blocks, key-value pairs and literals.
pub mod token;
pub mod lexer;
pub mod parser;
pub mod syntax;
