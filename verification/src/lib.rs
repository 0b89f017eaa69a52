//! A z80 assembler with namespaces and static variables, and its linker.
pub mod assembler;
pub mod code_laws;
pub mod laws;
pub mod linker;
pub mod number;
pub mod opcode_table;
pub mod opcodes;
pub mod parser;
pub mod program;
pub mod text;
