pub mod brackets;
pub mod driver;
pub mod ops;
pub mod parser;
pub mod vm;
