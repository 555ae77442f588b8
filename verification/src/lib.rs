//! An execution engine for the Universal Machine: eight 32-bit registers, an
//! indexed heap of 32-bit arrays, fourteen opcodes, and a byte stream for
//! input and output.
//!
//! The crate holds a verified instruction codec, array heap, interpreter,
//! trace recorder and trace evaluator, together with the machine model that
//! their contracts are stated over.

pub mod codegen;
pub mod instruction;
pub mod interpreter;
pub mod io;
pub mod jit;
pub mod loader;
pub mod memory;
pub mod model;
