//! Front end of a small SQL query engine: a scanner that turns query text
//! into tokens, and a precedence-climbing parser that turns tokens into an
//! abstract syntax tree.
pub mod ast;
pub mod parser;
pub mod token;
pub mod tokenizer;
pub mod lexical;
