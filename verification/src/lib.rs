//! A small interpreted stack language.
//!
//! Source text is tokenized, parsed into a function-indexed abstract syntax
//! tree, and tree-walk executed against an explicit operand stack, a linear
//! byte-addressable memory region with a first-fit allocator, and a lexical
//! variable environment.

pub mod eval;
pub mod io;
pub mod laws;
pub mod lexer;
pub mod memory;
pub mod parser;
pub mod token;
