//! Bytecode generation for the Monkey scripting language: the instruction
//! encoding, the lexer and parser that produce a syntax tree, and the
//! compiler that turns the tree into instructions and a constant pool.

pub mod ast;
pub mod code;
pub mod compiler;
pub mod err;
pub mod lexer;
pub mod object;
pub mod parser;
pub mod text;
pub mod token;
