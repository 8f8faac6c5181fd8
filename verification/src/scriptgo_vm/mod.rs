pub mod assembler;
pub mod instruction;
pub mod vm;
