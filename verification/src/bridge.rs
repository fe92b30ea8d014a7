//! The boundary to the external collaborators: the disassembler, the
//! havoc pre-pass, the abstract trace engine and the basic-block graph
//! with its dominator solver.  Each item here turns an outside result
//! into the plain values the verified core works on; everything
//! downstream of these conversions is verified for every value they
//! may produce.

use vstd::prelude::*;
use evmil::bytecode::{Assemble, Assembly, BlockVec, Instruction, StructuredSection};
use evmil::bytecode::Instruction::{DATA, DUP, HAVOC, JUMP, JUMPDEST, JUMPI, LOG, PUSH, PUSH0,
    RJUMP, RJUMPI, SWAP};
use evmil::analysis::trace;
use evmil::analysis::{aw256, BlockGraph, ConcreteMemory, ConcreteStack, ConcreteState,
    EvmMemory, EvmStack, EvmState, UnknownStorage};
use evmil::util::{dominators, w256, Concretizable, SortedVec, SubsliceOffset};
use crate::analysis::AbstractState;
use crate::instr::Instr;
use crate::word::W256;

verus! {

#[verifier::external_type_specification]
#[verifier::external_body]
pub struct ExInstruction(Instruction);

#[verifier::external_type_specification]
#[verifier::external_body]
pub struct ExAw256(aw256);

#[verifier::external_type_specification]
#[verifier::external_body]
#[verifier::reject_recursive_types(T)]
pub struct ExSortedVec<T: Ord>(SortedVec<T>);

/// One section of a disassembled contract: either executable code (the
/// instructions plus the section's raw bytes) or plain data.
pub enum RawSection {
    Code(Vec<Instruction>, Vec<u8>),
    Data(Vec<u8>),
}

/// The plain model of the external basic-block graph of one code
/// section: node boundaries, dominator sets and direct successor
/// sets, all by node index.
pub struct GraphModel {
    /// Whether graph construction completed within its limit.
    pub complete: bool,
    /// For each node, one past its last instruction offset; nodes
    /// partition the instruction sequence in order.
    pub node_ends: Vec<usize>,
    /// For each node, the set of nodes dominating it (including itself).
    pub dominators: Vec<Vec<usize>>,
    /// For each node, the set of its direct successors.
    pub successors: Vec<Vec<usize>>,
}

/// Relies on evmil's `Assembly::from_legacy_bytes` to split a legacy
/// contract into code and data sections, and on `Assemble::assemble`
/// to recover each code section's raw bytes.  Caution: the
/// disassembler runs evmil's reachability trace, which aborts the
/// process on a `JUMP`/`JUMPI` whose popped target it cannot resolve
/// to a constant (for example `PUSH1 0 CALLDATALOAD JUMP`); such
/// bytes never reach this library's own unresolved-branch error.
#[verifier::external_body]
pub fn disassemble(bytes: &[u8]) -> (r: Vec<RawSection>) {
    let mut out = Vec::new();
    for s in Assembly::from_legacy_bytes(bytes).iter() {
        match s {
            StructuredSection::Code(insns) => {
                let is: &[Instruction] = insns.as_slice();
                out.push(RawSection::Code(insns.clone(), is.assemble()));
            },
            StructuredSection::Data(bs) => {
                out.push(RawSection::Data(bs.clone()));
            },
        }
    }
    out
}

/// Relies on evmil's `insert_havocs`, which inserts virtual `HAVOC`
/// instructions wherever a stack location's value depends on itself.
/// The boolean reports whether its dependency analysis completed
/// within the given limit.  Caution: the dependency analysis walks
/// the stack effects and aborts the process on an unresolved jump
/// target or a stack underflow in the analysed code.
#[verifier::external_body]
pub fn insert_havoc_insns(insns: Vec<Instruction>, limit: usize) -> (r: (Vec<Instruction>, bool)) {
    match evmil::analysis::insert_havocs(insns, limit) {
        Ok(v) => (v, true),
        Err(v) => (v, false),
    }
}

/// Models one disassembled instruction as a plain `Instr`.  The tagged
/// variants move their fields across; the fall-back tag relies on
/// evmil's `opcode`, `operands` and `fallthru` tables.
#[verifier::external_body]
pub fn convert_instruction(insn: &Instruction) -> (r: Instr) {
    match insn {
        JUMPDEST => Instr::JumpDest,
        JUMP => Instr::Jump,
        JUMPI => Instr::JumpI,
        PUSH(bs) => Instr::Push(bs.clone()),
        PUSH0 => Instr::Push0,
        DUP(n) => Instr::Dup(*n),
        SWAP(n) => Instr::Swap(*n),
        LOG(n) => Instr::Log(*n),
        RJUMP(t) => Instr::RJump(*t),
        RJUMPI(t) => Instr::RJumpI(*t),
        DATA(bs) => Instr::Data(bs.clone()),
        HAVOC(n) => Instr::Havoc(*n),
        o => Instr::Other { op: o.opcode(), pops: o.operands() as u8, fallthru: o.fallthru() },
    }
}

/// Model a whole disassembled instruction sequence, one instruction
/// at a time.
pub fn convert_instructions(insns: &Vec<Instruction>) -> (r: Vec<Instr>)
    ensures
        r@.len() == insns@.len(),
{
    let mut out: Vec<Instr> = Vec::new();
    let mut k: usize = 0;
    while k < insns.len()
        invariant
            k <= insns@.len(),
            out@.len() == k,
        decreases insns@.len() - k,
    {
        out.push(convert_instruction(&insns[k]));
        k += 1;
    }
    out
}

/// Relies on evmil's `Concretizable` for `aw256`: a constant abstract
/// word yields its value (through ruint's `as_limbs`), an unknown one
/// yields `None`.
#[verifier::external_body]
pub fn word_of(w: &aw256) -> (r: Option<W256>) {
    if w.is_constant() {
        let c = w.constant();
        let l = c.as_limbs();
        Some(W256 { l0: l[0], l1: l[1], l2: l[2], l3: l[3] })
    } else {
        None
    }
}

/// A constant abstract word within the native range, read through
/// `word_of`.
pub fn native_of(w: &aw256) -> (r: Option<usize>) {
    match word_of(w) {
        Some(x) => x.as_native(),
        None => None,
    }
}

/// Relies on evmil's `trace` abstract interpreter over its concrete
/// stack/memory state with unknown storage, started from the empty
/// state: one row of reached states per instruction, each modelled as
/// an `AbstractState` (stack slots through `word_of` on `peek`; the
/// free memory pointer through a memory `read` at offset 0x40, kept
/// when constant and within native range).  The boolean reports
/// whether the trace completed within its step limit.  Caution: the
/// trace itself aborts the process on a `JUMP`/`JUMPI` whose target
/// is unknown or above the native range, and on a `HAVOC` index not
/// below the stack height; those inputs never reach this library's
/// own error taxonomy.
#[verifier::external_body]
pub fn trace_states(insns: &Vec<Instruction>, limit: usize) -> (r: (Vec<Vec<AbstractState>>, bool))
    ensures
        r.0@.len() == insns@.len(),
{
    let a40 = aw256::from(w256::from(0x40));
    let r = trace::<Vec<ConcreteState<ConcreteStack<aw256>, ConcreteMemory<aw256>, UnknownStorage<aw256>>>>(insns, ConcreteState::new(), limit);
    let ok = r.is_ok();
    let rows = match r {
        Ok(t) => t,
        Err(t) => t,
    };
    let out = rows.iter().map(|row| row.iter().map(|s| {
        let st = s.stack();
        let fmp = native_of(&s.memory().clone().read(a40));
        AbstractState::new(fmp, (0..st.size()).map(|i| word_of(st.peek(i))).collect())
    }).collect()).collect();
    (out, ok)
}

/// Relies on evmil's `SortedVec::iter`, which yields each set's
/// elements in ascending order, to flatten a family of node sets.
#[verifier::external_body]
fn flatten_sets(v: Vec<SortedVec<usize>>) -> (r: Vec<Vec<usize>>)
    ensures
        r@.len() == v@.len(),
{
    v.iter().map(|s| s.iter().copied().collect()).collect()
}

/// Relies on evmil's basic-block graph: `BlockGraph::from_blocks` over
/// `BlockVec::new(insns)` builds the graph (resolving indirect
/// branches with the same abstract trace), `dominators` solves the
/// dominator relation, and `outgoing` lists each node's successors
/// (reachability is closed over these successor sets in verified
/// code).  Node boundaries are recovered through `subslice_offset`;
/// the blocks partition the instruction sequence in order, so their
/// end offsets are strictly increasing and finish at the end of the
/// sequence.  Every edge endpoint is at most the node count (the
/// value one past the last node stands for falling off the end of the
/// code).  Caution: edge resolution re-reads the trace's states at
/// each `JUMP`, and aborts the process when such a state has an empty
/// stack or an unknown or oversized top-of-stack.
#[verifier::external_body]
pub fn build_graph_model(insns: &Vec<Instruction>, limit: usize) -> (r: GraphModel)
    ensures
        r.dominators@.len() == r.node_ends@.len(),
        r.successors@.len() == r.node_ends@.len(),
        crate::sorted::strictly_increasing(r.node_ends@),
        r.node_ends@.len() > 0 ==> r.node_ends@[r.node_ends@.len() - 1] == insns@.len(),
        insns@.len() > 0 ==> r.node_ends@.len() > 0,
        forall|n: int, k: int|
            0 <= n < r.dominators@.len() && 0 <= k < r.dominators@[n]@.len()
                ==> r.dominators@[n]@[k] < r.node_ends@.len(),
        forall|n: int, k: int|
            0 <= n < r.successors@.len() && 0 <= k < r.successors@[n]@.len()
                ==> r.successors@[n]@[k] <= r.node_ends@.len(),
{
    let (g, complete) = match BlockGraph::from_blocks(BlockVec::new(insns), limit) {
        Ok(g) => (g, true),
        Err(g) => (g, false),
    };
    let n = g.len();
    let sl = insns.as_slice();
    let dominators = flatten_sets(dominators(&g));
    let successors = flatten_sets((0..n).map(|b| g.outgoing(b).clone()).collect());
    let node_ends = (0..n).map(|b| sl.subslice_offset(g.get(b)) + g.get(b).len()).collect();
    GraphModel { complete, node_ends, dominators, successors }
}

} // verus!
