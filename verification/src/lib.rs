pub mod errors;
pub mod lexer;
