pub mod accept;
pub mod arena;
pub mod ast;
pub mod event;
pub mod grammar;
pub mod green;
pub mod lexer;
pub mod message;
pub mod parse;
pub mod parser;
pub mod sink;
pub mod syntax;
pub mod text;
pub mod tree;
