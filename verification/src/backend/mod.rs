pub mod codegen;
