pub mod rational;
pub mod ast;
pub mod dice;
pub mod eval;
pub mod lexer;
pub mod words;
pub mod parser;
pub mod resolve;
pub mod query;
