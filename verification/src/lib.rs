pub mod ast;
pub mod environment;
pub mod error;
pub mod grammar;
pub mod interpreter;
pub mod operators;
pub mod parser;
pub mod running;
pub mod scanner;
pub mod text;
pub mod token;
