//! An assembler and interpreter for a small register machine: sixteen registers, a sparse
//! memory, and the flags N and Z.
pub mod assembler;
pub mod debug;
pub mod text;
pub mod util;
pub mod vm;
