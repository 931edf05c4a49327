//! An assembler for a 16-bit register/memory machine: lexing, directive
//! parsing, operand evaluation, the opcode and built-in macro table, import
//! merging, and the two-pass-plus-emission resolver.
pub mod error;
pub mod expr;
pub mod opcode;
pub mod directive;
pub mod instruction;
pub mod parser;
pub mod lexer;
pub mod syntax;
pub mod imports;
