//! The query language in front of the index: its tokens, its tokenizer and
//! its syntax tree.

pub mod lexer;
pub mod node;
pub mod token;
