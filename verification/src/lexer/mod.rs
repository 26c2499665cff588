pub mod error;
pub mod lexer;
pub mod respace;
pub mod standard;
pub mod tokens;
