pub mod error;
pub mod parser;
pub mod walk;
