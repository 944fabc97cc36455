pub mod addr;
pub mod ast;
pub mod codegen;
pub mod command;
pub mod compile;
pub mod parser;
pub mod plane;
pub mod store;
pub mod vm;
