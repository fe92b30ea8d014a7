//! Generates per-function proof-skeleton source files for the Dafny EVM
//! from a contract's bytecode.  The instruction stream is abstractly
//! interpreted to recover known stack and free-memory-pointer values,
//! cut into bounded super-blocks, minimised by a backwards liveness
//! analysis, partitioned among the designated entry points, and finally
//! rendered as one proof file per entry point.

pub mod word;
pub mod sorted;
pub mod analysis;
pub mod instr;
pub mod block;
pub mod cfg;
pub mod groups;
pub mod printer;
pub mod hexutil;
pub mod render;
pub mod errors;
pub mod bridge;
pub mod driver;
