//! Unit tests for the word model, the abstract domain and the
//! liveness bit stacks.

use devmpg::analysis::AbstractState;
use devmpg::block::NecessaryState;
use devmpg::errors::Error;
use devmpg::instr::Instr;
use devmpg::word::W256;

fn w(v: usize) -> W256 {
    W256::from_usize(v)
}

#[test]
fn word_native_round_trip() {
    assert_eq!(w(0).as_native(), Some(0));
    assert_eq!(w(0x1234).as_native(), Some(0x1234));
    let big = W256::from_limbs(0, 1, 0, 0);
    assert_eq!(big.as_native(), None);
}

#[test]
fn word_ordering() {
    assert!(w(1).lt(&w(2)));
    assert!(!w(2).lt(&w(1)));
    assert!(!w(2).lt(&w(2)));
    let hi = W256::from_limbs(0, 0, 1, 0);
    let lo = W256::from_limbs(u64::MAX, u64::MAX, 0, 0);
    assert!(lo.lt(&hi));
}

#[test]
fn word_mask_recognition() {
    assert_eq!(w(0x01).as_bit_mask(), 1);
    assert_eq!(w(0x1f).as_bit_mask(), 5);
    assert_eq!(w(0xff).as_bit_mask(), 8);
    assert_eq!(w(0xffff).as_bit_mask(), 16);
    assert_eq!(w(0xff_ffff).as_bit_mask(), 24);
    assert_eq!(w(0xffff_ffff).as_bit_mask(), 32);
    assert_eq!(W256::from_limbs(u64::MAX, 0, 0, 0).as_bit_mask(), 64);
    assert_eq!(W256::from_limbs(u64::MAX, u64::MAX, 0, 0).as_bit_mask(), 128);
    assert_eq!(W256::from_limbs(u64::MAX, u64::MAX, 0xffff_ffff, 0).as_bit_mask(), 160);
    assert_eq!(w(0xfe).as_bit_mask(), 0);
    assert_eq!(w(0x100).as_bit_mask(), 0);
}

fn st(fmp: Option<usize>, slots: Vec<Option<W256>>) -> AbstractState {
    AbstractState::new(fmp, slots)
}

#[test]
fn join_idempotent_on_values() {
    // Joining a state with itself leaves it unchanged.
    let a = st(Some(0x80), vec![Some(w(1)), None, Some(w(3))]);
    let mut x = a.dup();
    x.join(&a);
    assert!(x.equals(&a));
}

#[test]
fn join_truncates_and_collapses() {
    let mut a = st(Some(0x80), vec![Some(w(1)), Some(w(2)), Some(w(9))]);
    let b = st(Some(0xa0), vec![Some(w(1)), Some(w(7))]);
    a.join(&b);
    // Truncated to the shorter frame; disagreeing slots collapse.
    assert_eq!(a.stack().len(), 2);
    assert_eq!(a.stack()[0], Some(w(1)));
    assert_eq!(a.stack()[1], None);
    // Disagreeing free memory pointers collapse too.
    assert_eq!(a.freemem_ptr(), None);
}

#[test]
fn join_commutes_on_values() {
    let a = st(Some(0x80), vec![Some(w(1)), None]);
    let b = st(Some(0x80), vec![Some(w(1)), Some(w(2)), Some(w(3))]);
    let mut ab = a.dup();
    ab.join(&b);
    let mut ba = b.dup();
    ba.join(&a);
    assert!(ab.equals(&ba));
}

#[test]
fn cancel_clears_shared_knowledge() {
    // A slot becomes unknown exactly where both states knew a value.
    let mut x = st(None, vec![Some(w(1)), Some(w(2)), None, Some(w(4))]);
    let y = st(None, vec![Some(w(9)), None, Some(w(3))]);
    x.cancel(&y);
    assert_eq!(x.stack().len(), 4);
    assert_eq!(x.stack()[0], None); // both knew a value
    assert_eq!(x.stack()[1], Some(w(2))); // only x knew one
    assert_eq!(x.stack()[2], None); // only y knew one
    assert_eq!(x.stack()[3], Some(w(4))); // beyond y's frame
}

#[test]
fn clear_stack_item_forgets_one_slot() {
    let mut x = st(Some(0x60), vec![Some(w(1)), Some(w(2))]);
    x.clear_stack_item(1);
    assert_eq!(x.stack()[0], Some(w(1)));
    assert_eq!(x.stack()[1], None);
    // Out of range: unchanged.
    x.clear_stack_item(9);
    assert_eq!(x.stack().len(), 2);
}

#[test]
fn necessary_get_set_grow() {
    let mut n = NecessaryState::new();
    assert!(!n.get(0));
    n.set(2, true);
    assert_eq!(n.depth(), 3);
    assert!(!n.get(0));
    assert!(!n.get(1));
    assert!(n.get(2));
    n.set(0, true);
    assert!(n.get(0));
    assert!(n.get(2));
}

#[test]
fn necessary_push_pop() {
    let mut n = NecessaryState::new();
    n.push(true);
    n.push(false);
    // Top of stack first.
    assert!(!n.get(0));
    assert!(n.get(1));
    assert_eq!(n.pop(), false);
    assert_eq!(n.pop(), true);
    assert_eq!(n.pop(), false); // empty stack pops dead bits
}

#[test]
fn necessary_join_pads_bottom() {
    // Point-wise OR, aligned from the top and padded on the bottom.
    let mut a = NecessaryState::new();
    a.push(true); // a = [true] (top first)
    let mut b = NecessaryState::new();
    b.push(false);
    b.push(true);
    b.push(false); // b = [false, true, false]
    let changed = a.join(&b);
    assert!(changed);
    assert_eq!(a.depth(), 3);
    assert!(a.get(0)); // true || false
    assert!(a.get(1)); // padded false || true
    assert!(!a.get(2));
    // Joining again changes nothing.
    let changed2 = a.join(&b);
    assert!(!changed2);
}

#[test]
fn error_messages_exist() {
    assert!(Error::UnresolvedBranch(4).message().len() > 0);
    assert!(Error::FixpointOverrun.message().len() > 0);
    assert_eq!(Error::Unsupported(7), Error::Unsupported(7));
    assert_ne!(Error::Unsupported(7), Error::Unsupported(8));
}

#[test]
fn instr_tables() {
    let add = Instr::Other { op: 0x01, pops: 2, fallthru: true };
    assert_eq!(add.operands(), 2);
    assert_eq!(add.produces(), 1);
    assert!(add.fallthru());
    assert_eq!(add.length(), 1);
    let push = Instr::Push(vec![0x60, 0x01]);
    assert_eq!(push.length(), 3);
    assert_eq!(push.produces(), 1);
    let sstore = Instr::Other { op: 0x55, pops: 2, fallthru: true };
    assert_eq!(sstore.produces(), 0);
    let swap = Instr::Swap(3);
    assert_eq!(swap.produces(), 0);
    let dup = Instr::Dup(2);
    assert_eq!(dup.produces(), 1);
    let log = Instr::Log(2);
    assert_eq!(log.operands(), 4);
    assert!(!Instr::Jump.fallthru());
    assert!(Instr::JumpI.fallthru());
    assert_eq!(Instr::Havoc(0).length(), 0);
}
