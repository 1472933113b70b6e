//! A JavaScript-compatible regular expression engine: a parser for ECMAScript
//! regex syntax, a code generator for the QuickJS regex bytecode format, a
//! backtracking interpreter for that bytecode, a bit-parallel NFA simulator
//! for the byte-level subset of it, and the passes and helpers of the
//! bytecode compiler (register allocation, group-name lookup, emission of
//! characters and ranges).

pub mod flags;
pub mod opcodes;
pub mod bytecode_builder;

pub use flags::Flags;
pub use opcodes::OpCode;
pub use bytecode_builder::BytecodeBuilder;
pub mod ast;
pub mod support;
pub mod error;
pub mod parser;
pub mod unicode_props;
pub mod charclass;
pub mod codegen;
pub mod compiler;
pub mod interpreter;
pub mod bitvm;
pub mod header;
pub mod escape;
pub mod passes;
pub mod group_names;
pub mod emit;
pub mod semantics;
pub mod ecma;
