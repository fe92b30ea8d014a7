//! End-to-end scenarios over the real disassembler and trace engine.

use devmpg::block::{BlockSequence, Bytecode, PrecheckPolicy};
use devmpg::bridge::{disassemble, insert_havoc_insns, RawSection};
use devmpg::cfg::ControlFlowGraph;
use devmpg::errors::Error;
use devmpg::instr::Instr;
use evmil::bytecode::Instruction;

const LIMIT: usize = 1_000_000;

/// Disassemble raw bytes and extend the first code section with
/// virtual havocs.
fn prepare(bytes: &[u8]) -> Vec<Instruction> {
    let sections = disassemble(bytes);
    for s in sections {
        if let RawSection::Code(insns, _) = s {
            let (h, _) = insert_havoc_insns(insns, LIMIT);
            return h;
        }
    }
    Vec::new()
}

fn build(bytes: &[u8], blocksize: usize) -> BlockSequence {
    let insns = prepare(bytes);
    let (bs, complete) =
        BlockSequence::from_insns(blocksize, &insns, PrecheckPolicy::OverflowChecks, LIMIT)
            .expect("block construction");
    assert!(complete);
    bs
}

fn is_unit(bc: &Bytecode) -> bool {
    matches!(bc, Bytecode::Unit(_))
}

#[test]
fn empty_stream_yields_zero_blocks_and_groups() {
    let insns: Vec<Instruction> = vec![];
    let (bs, _) = BlockSequence::from_insns(65535, &insns, PrecheckPolicy::OverflowChecks, LIMIT)
        .expect("empty stream");
    assert_eq!(bs.as_ref().len(), 0);
    // And zero groups.
    let (cfg, _) = ControlFlowGraph::new(0, 65535, &insns, PrecheckPolicy::OverflowChecks, LIMIT)
        .expect("empty cfg");
    let roots = vec![devmpg::groups::RootSpec {
        cid: 0,
        pc: 0,
        name: String::from("main"),
    }];
    let groups = devmpg::groups::split(&roots, &cfg);
    assert_eq!(groups.len(), 0);
}

#[test]
fn jumpdest_at_entry_does_not_split() {
    // JUMPDEST STOP
    let bs = build(&[0x5b, 0x00], 65535);
    let blocks = bs.as_ref();
    assert_eq!(blocks.len(), 1);
    assert_eq!(blocks[0].pc(), 0);
    assert_eq!(blocks[0].bytecodes().len(), 2);
    assert!(matches!(&blocks[0].bytecodes()[0], Bytecode::Unit(Instr::JumpDest)));
}

#[test]
fn budget_cut_records_fall_through() {
    // PUSH1 0x01 PUSH1 0x02 SSTORE with a two-bytecode budget.
    let bs = build(&[0x60, 0x01, 0x60, 0x02, 0x55], 2);
    let blocks = bs.as_ref();
    assert_eq!(blocks.len(), 2);
    assert_eq!(blocks[0].pc(), 0);
    assert_eq!(blocks[0].next(), Some(4));
    // No terminator is forged: the last bytecode is still a verbatim push.
    assert!(is_unit(&blocks[0].bytecodes()[blocks[0].bytecodes().len() - 1]));
    assert_eq!(blocks[1].pc(), 4);
    assert_eq!(blocks[1].next(), None);
}

#[test]
fn hello_push() {
    // PUSH1 0x01 PUSH1 0x02 SSTORE: one block at offset zero with
    // three verbatim bytecodes, no successor, and empty entry stack.
    let bs = build(&[0x60, 0x01, 0x60, 0x02, 0x55], 65535);
    let blocks = bs.as_ref();
    assert_eq!(blocks.len(), 1);
    assert_eq!(blocks[0].pc(), 0);
    assert_eq!(blocks[0].next(), None);
    let bcs = blocks[0].bytecodes();
    assert_eq!(bcs.len(), 3);
    assert!(bcs.iter().all(is_unit));
    let entry = blocks[0].entry_states();
    assert_eq!(entry.len(), 1);
    assert_eq!(entry[0].stack().len(), 0);
}

#[test]
fn simple_jump() {
    // PUSH1 0x03 JUMP JUMPDEST STOP: two blocks; the first ends in a
    // resolved jump, the second starts with the jump destination.
    let bs = build(&[0x60, 0x03, 0x56, 0x5b, 0x00], 65535);
    let blocks = bs.as_ref();
    assert_eq!(blocks.len(), 2);
    assert_eq!(blocks[0].pc(), 0);
    match &blocks[0].bytecodes()[blocks[0].bytecodes().len() - 1] {
        Bytecode::Jump(ts) => assert_eq!(ts, &vec![3usize]),
        _ => panic!("expected a resolved jump"),
    }
    assert_eq!(blocks[0].next(), None);
    assert_eq!(blocks[1].pc(), 3);
    assert!(matches!(&blocks[1].bytecodes()[0], Bytecode::Unit(Instr::JumpDest)));
    assert!(matches!(&blocks[1].bytecodes()[1], Bytecode::Unit(Instr::Other { op: 0x00, .. })));
    assert_eq!(blocks[1].next(), None);
}

#[test]
fn conditional_dispatch() {
    // PUSH1 0 PUSH1 7 JUMPI PUSH1 1 JUMPDEST STOP: the conditional
    // branch ends its block with a fall-through successor; one push
    // follows; the destination block starts with the jump destination.
    let bs = build(&[0x60, 0x00, 0x60, 0x07, 0x57, 0x60, 0x01, 0x5b, 0x00], 65535);
    let blocks = bs.as_ref();
    assert_eq!(blocks.len(), 3);
    assert_eq!(blocks[0].pc(), 0);
    match &blocks[0].bytecodes()[blocks[0].bytecodes().len() - 1] {
        Bytecode::JumpI(ts) => assert_eq!(ts, &vec![7usize]),
        _ => panic!("expected a resolved conditional jump"),
    }
    assert_eq!(blocks[0].next(), Some(5));
    assert_eq!(blocks[1].pc(), 5);
    assert_eq!(blocks[1].bytecodes().len(), 1);
    assert!(is_unit(&blocks[1].bytecodes()[0]));
    assert_eq!(blocks[1].next(), Some(7));
    assert_eq!(blocks[2].pc(), 7);
    assert!(matches!(&blocks[2].bytecodes()[0], Bytecode::Unit(Instr::JumpDest)));
}

#[test]
fn mask_recognition() {
    // PUSH1 0x01 PUSH1 0xFF AND STOP: the AND whose consensus top of
    // stack is 0xFF is recognised as an eight-bit mask.
    let bs = build(&[0x60, 0x01, 0x60, 0xff, 0x16, 0x00], 65535);
    let blocks = bs.as_ref();
    assert_eq!(blocks.len(), 1);
    let bcs = blocks[0].bytecodes();
    assert!(matches!(&bcs[1], Bytecode::Unit(Instr::Push(_))));
    assert!(matches!(&bcs[2], Bytecode::Mask(8)));
}

#[test]
fn jump_targets_sorted() {
    // Two paths push different destinations and meet at one jump:
    // 0: CALLDATASIZE ; 1: PUSH1 9 ; 3: JUMPI -> 9
    // 4: PUSH1 0x11 ; 6: PUSH1 0x0f ; 8: JUMP -> 15
    // 9: JUMPDEST ; 10: PUSH1 0x13 ; 12: PUSH1 0x0f ; 14: JUMP -> 15
    // 15: JUMPDEST ; 16: JUMP -> {0x11, 0x13}
    // 17: JUMPDEST STOP ; 19: JUMPDEST STOP
    let bytes = [
        0x36, 0x60, 0x09, 0x57, 0x60, 0x11, 0x60, 0x0f, 0x56, 0x5b, 0x60, 0x13, 0x60, 0x0f, 0x56,
        0x5b, 0x56, 0x5b, 0x00, 0x5b, 0x00,
    ];
    let bs = build(&bytes, 65535);
    let blocks = bs.as_ref();
    // The meeting jump carries both destinations, strictly increasing.
    let mut found_pair = false;
    for b in blocks {
        for bc in b.bytecodes() {
            let ts = match bc {
                Bytecode::Jump(ts) => ts,
                Bytecode::JumpI(ts) => ts,
                _ => continue,
            };
            for i in 1..ts.len() {
                assert!(ts[i - 1] < ts[i]);
            }
            if ts.len() == 2 {
                assert_eq!(ts, &vec![0x11usize, 0x13usize]);
                found_pair = true;
            }
        }
    }
    assert!(found_pair);
}

#[test]
fn unresolved_branch_is_reported() {
    // A branch whose top of stack is unknown in some reached state is
    // a hard error the emitter cannot satisfy.
    let known = devmpg::analysis::AbstractState::new(
        None,
        vec![Some(devmpg::word::W256::from_usize(4))],
    );
    let unknown = devmpg::analysis::AbstractState::new(None, vec![None]);
    let ok = devmpg::analysis::jump_targets(7, &[known]);
    assert_eq!(ok.unwrap(), vec![4usize]);
    let states = [
        devmpg::analysis::AbstractState::new(None, vec![Some(devmpg::word::W256::from_usize(4))]),
        unknown,
    ];
    let r = devmpg::analysis::jump_targets(7, &states);
    assert_eq!(r.err(), Some(Error::UnresolvedBranch(7)));
}

#[test]
fn static_jumps_are_unsupported() {
    let insns = vec![Instruction::RJUMP(4)];
    let r = BlockSequence::from_insns(65535, &insns, PrecheckPolicy::OverflowChecks, LIMIT);
    assert_eq!(r.err(), Some(Error::Unsupported(0)));
}

#[test]
fn branch_into_an_operand_is_reported() {
    // PUSH1 1 JUMP: offset 1 is inside the push, no block starts there.
    let insns = prepare(&[0x60, 0x01, 0x56]);
    let r = BlockSequence::from_insns(65535, &insns, PrecheckPolicy::OverflowChecks, LIMIT);
    assert_eq!(r.err(), Some(Error::MissingBlock(1)));
}

#[test]
fn overflow_hook_injects_asserts() {
    // PUSH1 1 PUSH1 2 ADD STOP with the overflow hook: an assert is
    // injected ahead of the ADD, keeping both operands alive.
    let bs = build(&[0x60, 0x01, 0x60, 0x02, 0x01, 0x00], 65535);
    let blocks = bs.as_ref();
    assert_eq!(blocks.len(), 1);
    let bcs = blocks[0].bytecodes();
    let mut found = false;
    for bc in bcs {
        if let Bytecode::Assert(uses, text) = bc {
            assert_eq!(uses, &vec![0usize, 1usize]);
            assert_eq!(text.as_str(), "(st.Peek(0) + st.Peek(1)) <= (MAX_U256 as u256)");
            found = true;
        }
    }
    assert!(found);
}

#[test]
fn liveness_prunes_dead_push() {
    // PUSH1 0x42 POP STOP with a one-bytecode budget: the block
    // holding the POP does not need its entry top-of-stack, so the
    // pruned entry state forgets the pushed value.
    let insns = prepare(&[0x60, 0x42, 0x50, 0x00]);
    let (mut bs, _) =
        BlockSequence::from_insns(1, &insns, PrecheckPolicy::OverflowChecks, LIMIT)
            .expect("blocks");
    {
        let blocks = bs.as_ref();
        assert_eq!(blocks.len(), 3);
        assert_eq!(blocks[1].pc(), 2);
        // Before pruning the value is known on entry to the POP block.
        assert_eq!(blocks[1].entry_states()[0].stack().len(), 1);
        assert!(blocks[1].entry_states()[0].stack()[0].is_some());
        // The liveness analysis marks the slot as dead.
        assert!(!blocks[1].state(0).necessary_stack_item(0));
    }
    bs.minimise();
    let blocks = bs.as_ref();
    assert_eq!(blocks[1].entry_states()[0].stack()[0], None);
}

#[test]
fn ownership_prefers_the_inner_root() {
    // Root 0 dominates root 5; the block at 10 is reached only
    // through 5, so 5 owns it and 0 does not.
    let bytes = [
        0x60, 0x05, 0x56, 0x00, 0x00, 0x5b, 0x60, 0x0a, 0x56, 0x00, 0x5b, 0x00,
    ];
    let insns = prepare(&bytes);
    let (mut cfg, _) =
        ControlFlowGraph::new(0, 65535, &insns, PrecheckPolicy::OverflowChecks, LIMIT)
            .expect("cfg");
    cfg.add_root(0);
    cfg.add_root(5);
    assert!(cfg.dominates(0, 5));
    assert!(cfg.dominates(0, 10));
    assert!(cfg.dominates(5, 10));
    assert!(!cfg.dominates(5, 0));
    assert!(cfg.reaches(5, 10));
    let blocks = cfg.blocks();
    let b10 = blocks.iter().find(|b| b.pc() == 10).expect("block at 10");
    assert!(cfg.owns(5, b10));
    assert!(!cfg.owns(0, b10));
    // And the owned sets reflect it.
    let owned5 = cfg.get_owned(5);
    assert!(owned5.iter().any(|b| b.pc() == 10));
    let owned0 = cfg.get_owned(0);
    assert!(!owned0.iter().any(|b| b.pc() == 10));
}
