pub mod ast;
pub mod parser;
