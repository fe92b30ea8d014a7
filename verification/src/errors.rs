//! The error taxonomy of the generator.  Everything this library
//! detects itself is reported through these explicit results rather
//! than process termination.  The external trace and graph builder,
//! however, abort the process on branches they cannot resolve before
//! this library sees them (see the caution notes on the boundary
//! items); for such bytecode the unresolved-branch error below is
//! reachable only through the resolution functions directly.

use vstd::prelude::*;

verus! {

/// Everything that can go wrong while turning bytecode into proof
/// skeletons.
#[derive(Clone, Copy, Debug, PartialEq, Eq, Structural)]
pub enum Error {
    /// The input text is not a hex string (position of the offending byte).
    InvalidHex(usize),
    /// A `JUMP`/`JUMPI` whose top-of-stack is unknown in some reachable
    /// state (byte offset of the branch).
    UnresolvedBranch(usize),
    /// An instruction the translator does not support yet, such as
    /// `RJUMP`/`RJUMPI` (byte offset).
    Unsupported(usize),
    /// A branch or fall-through target that is not the start of any
    /// block (the target byte offset).
    MissingBlock(usize),
    /// The liveness fixpoint failed to stabilise within its safety
    /// counter; a fatal bug rather than an input error.
    FixpointOverrun,
    /// A designated root does not start an instruction (the root's
    /// byte offset).
    InvalidRoot(usize),
    /// The instruction stream is too large for native arithmetic.
    Oversized,
}

impl Error {
    /// A human-readable description, for the driver's error sink.
    pub fn message(&self) -> String {
        match self {
            Error::InvalidHex(_) => String::from_str("input is not a valid hex string"),
            Error::UnresolvedBranch(_) => String::from_str(
                "unresolved indirect branch: top of stack unknown",
            ),
            Error::Unsupported(_) => String::from_str("unsupported instruction"),
            Error::MissingBlock(_) => String::from_str("branch target is not a block entry"),
            Error::FixpointOverrun => String::from_str(
                "liveness analysis failed to reach a fixed point",
            ),
            Error::InvalidRoot(_) => String::from_str(
                "root offset does not start an instruction",
            ),
            Error::Oversized => String::from_str("instruction stream is too large"),
        }
    }
}

} // verus!
