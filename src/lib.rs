pub mod codegen;
pub mod compiler;
pub mod laws;
pub mod lexer;
pub mod token;
