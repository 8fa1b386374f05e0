//! A decompiler middle-end for stack-machine bytecode: it rebuilds a
//! control-flow graph from a decoded instruction sequence, converts it to and
//! from static single assignment (SSA) form, cleans the SSA graph up with
//! expression propagation and dead-code elimination, and finally reconstructs
//! structured control flow (if/else, loops, sequencing) from the raw graph of
//! jumps.

pub mod analysis;
pub mod cfg;
pub mod common_env;
pub mod dominance;
pub mod fmt;
pub mod interp;
pub mod sdk_linker;
pub mod specs_generate;
pub mod ssa;
pub mod structuring;
pub mod wasm;
