pub mod lexer;
pub mod nonterminals;
pub mod parser;
pub mod token;
