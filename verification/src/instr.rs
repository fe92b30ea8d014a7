//! The instruction model.  Instructions are decomposed by the tags the
//! translator cares about (`JUMPDEST`, `JUMP`, `JUMPI`, `PUSH`, `DUP`,
//! `SWAP`, `LOG`, `RJUMP`, `RJUMPI`, `DATA`, `HAVOC`), with one raw
//! fall-back tag identified by its opcode byte.  The stack accounting
//! tables (`operands`/`produces`) follow the EVM specification.

use vstd::prelude::*;

verus! {

pub const OP_AND: u8 = 0x16;
pub const OP_MSTORE: u8 = 0x52;
pub const OP_MSTORE8: u8 = 0x53;
pub const OP_JUMP: u8 = 0x56;
pub const OP_JUMPI: u8 = 0x57;
pub const OP_JUMPDEST: u8 = 0x5b;
pub const OP_CALL: u8 = 0xf1;

/// One instruction of the (havoc-extended) stream.  The `Other` tag
/// carries the raw opcode together with the disassembler's operand
/// count and fall-through flag.
#[derive(Debug, Clone)]
#[verifier::ext_equal]
pub enum Instr {
    JumpDest,
    Jump,
    JumpI,
    Push(Vec<u8>),
    Push0,
    Dup(u8),
    Swap(u8),
    Log(u8),
    /// Static jump; the payload is the absolute target byte offset.
    RJump(usize),
    /// Static conditional jump; the payload is the absolute target.
    RJumpI(usize),
    Data(Vec<u8>),
    Havoc(usize),
    Other { op: u8, pops: u8, fallthru: bool },
}

/// Copy a byte vector element by element.
pub fn copy_bytes(v: &Vec<u8>) -> (r: Vec<u8>)
    ensures
        r@ == v@,
{
    let mut out: Vec<u8> = Vec::new();
    let mut i: usize = 0;
    while i < v.len()
        invariant
            i <= v@.len(),
            out@ == v@.subrange(0, i as int),
        decreases v@.len() - i,
    {
        out.push(v[i]);
        i += 1;
    }
    assert(out@ =~= v@);
    out
}

impl Instr {
    /// The length of this instruction in bytes.  `HAVOC` is virtual and
    /// occupies no bytes; `DATA` spans exactly its payload.
    pub open spec fn spec_length(&self) -> int {
        match self {
            Instr::Push(bs) => 1 + bs@.len() as int,
            Instr::Data(bs) => bs@.len() as int,
            Instr::RJump(_) => 3,
            Instr::RJumpI(_) => 3,
            Instr::Havoc(_) => 0,
            _ => 1,
        }
    }

    pub fn length(&self) -> (r: usize)
        requires
            self.spec_length() <= usize::MAX,
        ensures
            r == self.spec_length(),
    {
        match self {
            Instr::Push(bs) => 1 + bs.len(),
            Instr::Data(bs) => bs.len(),
            Instr::RJump(_) => 3,
            Instr::RJumpI(_) => 3,
            Instr::Havoc(_) => 0,
            _ => 1,
        }
    }

    /// How many stack operands this instruction consumes.
    pub open spec fn spec_operands(&self) -> int {
        match self {
            Instr::JumpDest => 0,
            Instr::Jump => 1,
            Instr::JumpI => 2,
            Instr::Push(_) => 0,
            Instr::Push0 => 0,
            Instr::Dup(_) => 0,
            Instr::Swap(_) => 0,
            Instr::Log(n) => 2 + (*n as int),
            Instr::RJump(_) => 0,
            Instr::RJumpI(_) => 1,
            Instr::Data(_) => 0,
            Instr::Havoc(_) => 0,
            Instr::Other { op: _, pops, fallthru: _ } => *pops as int,
        }
    }

    pub fn operands(&self) -> (r: usize)
        ensures
            r == self.spec_operands(),
    {
        match self {
            Instr::JumpDest => 0,
            Instr::Jump => 1,
            Instr::JumpI => 2,
            Instr::Push(_) => 0,
            Instr::Push0 => 0,
            Instr::Dup(_) => 0,
            Instr::Swap(_) => 0,
            Instr::Log(n) => 2 + (*n as usize),
            Instr::RJump(_) => 0,
            Instr::RJumpI(_) => 1,
            Instr::Data(_) => 0,
            Instr::Havoc(_) => 0,
            Instr::Other { op: _, pops, fallthru: _ } => *pops as usize,
        }
    }

    /// How many stack items this instruction produces, following the
    /// EVM specification.
    pub open spec fn spec_produces(&self) -> int {
        match self {
            Instr::JumpDest => 0,
            Instr::Jump => 0,
            Instr::JumpI => 0,
            Instr::Push(_) => 1,
            Instr::Push0 => 1,
            Instr::Dup(_) => 1,
            Instr::Swap(_) => 0,
            Instr::Log(_) => 0,
            Instr::RJump(_) => 0,
            Instr::RJumpI(_) => 0,
            Instr::Data(_) => 0,
            Instr::Havoc(_) => 0,
            Instr::Other { op, pops: _, fallthru: _ } => spec_produces_op(*op),
        }
    }

    pub fn produces(&self) -> (r: usize)
        ensures
            r == self.spec_produces(),
    {
        match self {
            Instr::JumpDest => 0,
            Instr::Jump => 0,
            Instr::JumpI => 0,
            Instr::Push(_) => 1,
            Instr::Push0 => 1,
            Instr::Dup(_) => 1,
            Instr::Swap(_) => 0,
            Instr::Log(_) => 0,
            Instr::RJump(_) => 0,
            Instr::RJumpI(_) => 0,
            Instr::Data(_) => 0,
            Instr::Havoc(_) => 0,
            Instr::Other { op, pops: _, fallthru: _ } => produces_op(*op),
        }
    }

    /// Whether control can continue to the following instruction.
    pub open spec fn spec_fallthru(&self) -> bool {
        match self {
            Instr::Jump => false,
            Instr::RJump(_) => false,
            Instr::Data(_) => false,
            Instr::Other { op: _, pops: _, fallthru } => *fallthru,
            _ => true,
        }
    }

    pub fn fallthru(&self) -> (r: bool)
        ensures
            r == self.spec_fallthru(),
    {
        match self {
            Instr::Jump => false,
            Instr::RJump(_) => false,
            Instr::Data(_) => false,
            Instr::Other { op: _, pops: _, fallthru } => *fallthru,
            _ => true,
        }
    }

    /// The length in bytes, or `None` when it does not fit the native
    /// range.
    pub fn checked_length(&self) -> (r: Option<usize>)
        ensures
            r matches Some(l) ==> l == self.spec_length(),
            r is None <==> self.spec_length() > usize::MAX,
    {
        match self {
            Instr::Push(bs) => {
                if bs.len() < usize::MAX {
                    Some(1 + bs.len())
                } else {
                    None
                }
            },
            Instr::Data(bs) => Some(bs.len()),
            Instr::RJump(_) => Some(3),
            Instr::RJumpI(_) => Some(3),
            Instr::Havoc(_) => Some(0),
            _ => Some(1),
        }
    }

    /// A copy of this instruction, equal to it at the model level.
    pub fn duplicate(&self) -> (r: Instr)
        ensures
            instr_eqv(r, *self),
    {
        match self {
            Instr::JumpDest => Instr::JumpDest,
            Instr::Jump => Instr::Jump,
            Instr::JumpI => Instr::JumpI,
            Instr::Push(bs) => Instr::Push(copy_bytes(bs)),
            Instr::Push0 => Instr::Push0,
            Instr::Dup(n) => Instr::Dup(*n),
            Instr::Swap(n) => Instr::Swap(*n),
            Instr::Log(n) => Instr::Log(*n),
            Instr::RJump(t) => Instr::RJump(*t),
            Instr::RJumpI(t) => Instr::RJumpI(*t),
            Instr::Data(bs) => Instr::Data(copy_bytes(bs)),
            Instr::Havoc(n) => Instr::Havoc(*n),
            Instr::Other { op, pops, fallthru } => Instr::Other {
                op: *op,
                pops: *pops,
                fallthru: *fallthru,
            },
        }
    }
}

/// Two instructions that agree at the model level: the same tag, with
/// payload vectors compared by their contents.
pub open spec fn instr_eqv(a: Instr, b: Instr) -> bool {
    match (a, b) {
        (Instr::JumpDest, Instr::JumpDest) => true,
        (Instr::Jump, Instr::Jump) => true,
        (Instr::JumpI, Instr::JumpI) => true,
        (Instr::Push(x), Instr::Push(y)) => x@ == y@,
        (Instr::Push0, Instr::Push0) => true,
        (Instr::Dup(x), Instr::Dup(y)) => x == y,
        (Instr::Swap(x), Instr::Swap(y)) => x == y,
        (Instr::Log(x), Instr::Log(y)) => x == y,
        (Instr::RJump(x), Instr::RJump(y)) => x == y,
        (Instr::RJumpI(x), Instr::RJumpI(y)) => x == y,
        (Instr::Data(x), Instr::Data(y)) => x@ == y@,
        (Instr::Havoc(x), Instr::Havoc(y)) => x == y,
        (
            Instr::Other { op: xo, pops: xp, fallthru: xf },
            Instr::Other { op: yo, pops: yp, fallthru: yf },
        ) => xo == yo && xp == yp && xf == yf,
        _ => false,
    }
}

/// Model-equal instructions agree on every accounting table.
pub proof fn lemma_instr_eqv_tables(a: Instr, b: Instr)
    requires
        instr_eqv(a, b),
    ensures
        a.spec_length() == b.spec_length(),
        a.spec_operands() == b.spec_operands(),
        a.spec_produces() == b.spec_produces(),
        a.spec_fallthru() == b.spec_fallthru(),
{
}

/// The number of stack items produced by the instruction with a given
/// raw opcode, per the EVM specification (zero for undefined opcodes).
pub open spec fn spec_produces_op(op: u8) -> int {
    if op == 0x00 {
        0  // STOP
    } else if 0x01 <= op && op <= 0x0b {
        1  // arithmetic
    } else if 0x10 <= op && op <= 0x1d {
        1  // comparison and bitwise
    } else if op == 0x20 {
        1  // KECCAK256
    } else if op == 0x37 || op == 0x39 || op == 0x3c || op == 0x3e {
        0  // CALLDATACOPY, CODECOPY, EXTCODECOPY, RETURNDATACOPY
    } else if 0x30 <= op && op <= 0x3f {
        1  // environment reads
    } else if 0x40 <= op && op <= 0x4a {
        1  // block information
    } else if op == 0x51 || op == 0x54 || op == 0x58 || op == 0x59 || op == 0x5a || op == 0x5c {
        1  // MLOAD, SLOAD, PC, MSIZE, GAS, TLOAD
    } else if 0x5f <= op && op <= 0x8f {
        1  // PUSH0, PUSH1..32, DUP1..16
    } else if op == 0xf0 || op == 0xf1 || op == 0xf2 || op == 0xf4 || op == 0xf5 || op == 0xfa {
        1  // CREATE, CALL, CALLCODE, DELEGATECALL, CREATE2, STATICCALL
    } else {
        0
    }
}

pub fn produces_op(op: u8) -> (r: usize)
    ensures
        r == spec_produces_op(op),
{
    if op == 0x00 {
        0
    } else if 0x01 <= op && op <= 0x0b {
        1
    } else if 0x10 <= op && op <= 0x1d {
        1
    } else if op == 0x20 {
        1
    } else if op == 0x37 || op == 0x39 || op == 0x3c || op == 0x3e {
        0
    } else if 0x30 <= op && op <= 0x3f {
        1
    } else if 0x40 <= op && op <= 0x4a {
        1
    } else if op == 0x51 || op == 0x54 || op == 0x58 || op == 0x59 || op == 0x5a || op == 0x5c {
        1
    } else if 0x5f <= op && op <= 0x8f {
        1
    } else if op == 0xf0 || op == 0xf1 || op == 0xf2 || op == 0xf4 || op == 0xf5 || op == 0xfa {
        1
    } else {
        0
    }
}

} // verus!
