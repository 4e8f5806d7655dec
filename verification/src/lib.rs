pub mod instructions;
pub mod vm;
pub mod lexer;
pub mod codegen;
