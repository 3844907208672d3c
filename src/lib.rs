pub mod text;
pub mod lexer;
pub mod parser;
pub mod schema;
pub mod codegen;
pub mod file;
