//! A small scripting-language pipeline: a byte-level tokenizer, a single-pass
//! compiler that emits compact bytecode plus a deduplicated constant pool, and
//! a stack-based virtual machine that executes the compiled program against a
//! global environment of host-provided functions.

pub mod enums;
pub mod lexer;
pub mod parser;
pub mod vm;
