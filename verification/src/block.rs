//! Super-block decomposition and liveness-based minimisation.  The
//! instruction stream is cut into blocks of bounded size, each
//! instruction is rewritten into a tagged block bytecode, the abstract
//! state snapshot preceding each bytecode is attached, and a backwards
//! dataflow analysis marks which stack positions are consumed
//! downstream so that entry states can be pruned to the load-bearing
//! facts.

use vstd::prelude::*;
use crate::analysis::{join_fold, AbsModel, AbstractState, BytecodeAnalysis, jump_targets};
use crate::errors::Error;
use crate::instr::{Instr, OP_AND, OP_MSTORE, OP_MSTORE8};
use crate::sorted::strictly_increasing;
use crate::word::W256;

verus! {

/// One emission unit inside a block: a comment anchor, an injected
/// precondition, a recognised bit mask, a verbatim instruction, or a
/// resolved indirect branch.
#[derive(Debug)]
pub enum Bytecode {
    Comment(String),
    Assert(Vec<usize>, String),
    Mask(usize),
    Unit(Instr),
    JumpI(Vec<usize>),
    Jump(Vec<usize>),
}

/// The number of instruction bytes a block bytecode spans.
pub open spec fn bc_len(bc: Bytecode) -> int {
    match bc {
        Bytecode::Comment(_) => 0,
        Bytecode::Assert(_, _) => 0,
        Bytecode::Mask(_) => 1,
        Bytecode::Unit(i) => i.spec_length(),
        Bytecode::JumpI(_) => 1,
        Bytecode::Jump(_) => 1,
    }
}

/// Every branch's target list is strictly increasing (sorted and
/// duplicate free).
pub open spec fn bc_targets_sorted(bc: Bytecode) -> bool {
    match bc {
        Bytecode::JumpI(ts) => strictly_increasing(ts@),
        Bytecode::Jump(ts) => strictly_increasing(ts@),
        _ => true,
    }
}

// ===================================================================
// Necessary state
// ===================================================================

/// Reading a bit from a top-first bit stack: positions beyond the
/// recorded depth are dead.
pub open spec fn sbit(s: Seq<bool>, i: int) -> bool {
    0 <= i < s.len() && s[i]
}

/// Point-wise OR of two bit stacks, padded on the bottom.
pub open spec fn sjoin(a: Seq<bool>, b: Seq<bool>) -> Seq<bool> {
    Seq::new(
        if a.len() >= b.len() {
            a.len()
        } else {
            b.len()
        },
        |j: int| sbit(a, j) || sbit(b, j),
    )
}

/// Point-wise implication: every live bit of `a` is live in `b`.
pub open spec fn bits_leq(a: Seq<bool>, b: Seq<bool>) -> bool {
    forall|j: int| sbit(a, j) ==> sbit(b, j)
}

/// A growable stack of liveness bits, indexed from the top (index 0 is
/// the top of the EVM stack).  A `true` bit means some reachable
/// downstream instruction consumes that stack slot.
#[derive(Debug)]
pub struct NecessaryState {
    // Bottom of the stack first, so the bit for slot `i` (from the
    // top) lives at `stack.len() - 1 - i`.
    stack: Vec<bool>,
}

impl View for NecessaryState {
    type V = Seq<bool>;

    /// The bits as a top-first sequence.
    closed spec fn view(&self) -> Seq<bool> {
        Seq::new(self.stack@.len(), |i: int| self.stack@[self.stack@.len() - 1 - i])
    }
}

impl NecessaryState {
    /// The empty state: every slot is dead.
    pub fn new() -> (r: NecessaryState)
        ensures
            r@.len() == 0,
    {
        NecessaryState { stack: Vec::new() }
    }

    /// Whether the given stack slot is needed downstream.
    pub fn get(&self, index: usize) -> (r: bool)
        ensures
            r == sbit(self@, index as int),
    {
        let n = self.stack.len();
        if index < n {
            self.stack[n - 1 - index]
        } else {
            false
        }
    }

    /// Record whether the given slot is needed, growing the stack with
    /// dead slots on the bottom as required.
    pub fn set(&mut self, index: usize, item: bool)
        requires
            index < usize::MAX,
        ensures
            final(self)@.len() == if old(self)@.len() > index {
                old(self)@.len() as int
            } else {
                index + 1
            },
            forall|j: int| 0 <= j < final(self)@.len() ==> final(self)@[j] == (
                if j == index {
                    item
                } else {
                    sbit(old(self)@, j)
                }),
    {
        let ghost orig = self@;
        while self.stack.len() <= index
            invariant
                index < usize::MAX,
                forall|j: int| 0 <= j < self@.len() ==> self@[j] == sbit(orig, j),
                self@.len() >= orig.len(),
                orig.len() > index ==> self@.len() == orig.len(),
                orig.len() <= index ==> self@.len() <= index + 1,
            decreases index + 1 - self.stack@.len(),
        {
            let ghost pre = self@;
            self.stack.insert(0, false);
            proof {
                assert forall|j: int| 0 <= j < self@.len() implies self@[j] == sbit(pre, j) by {
                    if j < pre.len() {
                        assert(self.stack@[self.stack@.len() - 1 - j] == pre[j]);
                    }
                }
            }
        }
        let n = self.stack.len();
        self.stack[n - 1 - index] = item;
    }

    /// Push a liveness bit for a newly considered top slot.
    pub fn push(&mut self, item: bool)
        ensures
            final(self)@.len() == old(self)@.len() + 1,
            final(self)@[0] == item,
            forall|j: int| 1 <= j < final(self)@.len() ==> final(self)@[j] == old(self)@[j - 1],
    {
        self.stack.push(item);
    }

    /// Pop the top slot's liveness bit (dead when the stack is empty).
    pub fn pop(&mut self) -> (r: bool)
        ensures
            r == sbit(old(self)@, 0),
            final(self)@.len() == if old(self)@.len() > 0 {
                old(self)@.len() - 1
            } else {
                0
            },
            forall|j: int| 0 <= j < final(self)@.len() ==> final(self)@[j] == old(self)@[j + 1],
    {
        match self.stack.pop() {
            Some(v) => v,
            None => false,
        }
    }

    /// Merge another bit stack into this one: point-wise OR, padded on
    /// the bottom.  Returns whether any live bit was added.
    pub fn join(&mut self, other: &NecessaryState) -> (r: bool)
        ensures
            final(self)@ == sjoin(old(self)@, other@),
            r == exists|j: int|
                0 <= j < final(self)@.len() && final(self)@[j] != sbit(old(self)@, j),
    {
        let ghost orig = self@;
        let sn = self.stack.len();
        let on = other.stack.len();
        let n = if sn >= on {
            sn
        } else {
            on
        };
        let mut out: Vec<bool> = Vec::new();
        let mut changed = false;
        let mut k: usize = 0;
        // Build the merged stack bottom-up (internal index k holds the
        // bit for view position n - 1 - k).
        while k < n
            invariant
                n == if orig.len() >= other@.len() {
                    orig.len() as int
                } else {
                    other@.len() as int
                },
                orig == self@,
                k <= n,
                out@.len() == k,
                forall|k2: int| 0 <= k2 < k ==> out@[k2] == (sbit(orig, n - 1 - k2) || sbit(
                    other@,
                    n - 1 - k2,
                )),
                changed ==> exists|j: int|
                    0 <= j < n && (sbit(orig, j) || sbit(other@, j)) != sbit(orig, j),
                !changed ==> forall|j: int|
                    n - k <= j < n ==> (sbit(orig, j) || sbit(other@, j)) == sbit(orig, j),
            decreases n - k,
        {
            let j = n - 1 - k;
            let ob = self.get(j);
            let bit = ob || other.get(j);
            if bit != ob {
                changed = true;
            }
            out.push(bit);
            k += 1;
        }
        self.stack = out;
        proof {
            assert forall|j: int| 0 <= j < n implies self@[j] == (sbit(orig, j) || sbit(
                other@,
                j,
            )) by {
                assert(self.stack@[n - 1 - j] == (sbit(orig, j) || sbit(other@, j)));
            }
            assert(self@ =~= sjoin(orig, other@));
        }
        changed
    }

    /// A copy with the same bits.
    pub fn dup(&self) -> (r: NecessaryState)
        ensures
            r@ == self@,
    {
        let mut stack: Vec<bool> = Vec::new();
        let mut i: usize = 0;
        while i < self.stack.len()
            invariant
                i <= self.stack@.len(),
                stack@ == self.stack@.subrange(0, i as int),
            decreases self.stack@.len() - i,
        {
            stack.push(self.stack[i]);
            i += 1;
        }
        assert(stack@ =~= self.stack@);
        let r = NecessaryState { stack };
        assert(r@ =~= self@);
        r
    }
}

// ===================================================================
// Block state
// ===================================================================

/// The information attached to one position inside a block: the
/// abstract states reaching it, and the liveness bits computed by the
/// minimisation pass.
#[derive(Debug)]
pub struct BlockState {
    states: Vec<AbstractState>,
    necessary: NecessaryState,
}

impl BlockState {
    /// The models of the abstract states at this position.
    pub closed spec fn models(&self) -> Seq<AbsModel> {
        self.states@.map_values(|x: AbstractState| x@)
    }

    /// The liveness bits at this position, top of stack first.
    pub closed spec fn necessary_bits(&self) -> Seq<bool> {
        self.necessary@
    }

    /// Attach a fresh position record to a set of abstract states; no
    /// slot is known to be necessary yet.
    pub fn new(states: Vec<AbstractState>) -> (r: BlockState)
        ensures
            r.models() == states@.map_values(|x: AbstractState| x@),
            r.necessary_bits().len() == 0,
    {
        BlockState { states, necessary: NecessaryState::new() }
    }

    /// The abstract states at this position.
    pub fn states(&self) -> (r: &[AbstractState])
        ensures
            r@.map_values(|x: AbstractState| x@) == self.models(),
    {
        self.states.as_slice()
    }

    /// The smallest and largest stack height over the states at this
    /// position (`usize::MAX` and `0` when the position is unreached).
    pub fn stack_bounds(&self) -> (r: (usize, usize))
        ensures
            forall|k: int|
                0 <= k < self.models().len() ==> r.0 <= self.models()[k].stack.len()
                    && self.models()[k].stack.len() <= r.1,
            self.models().len() == 0 ==> r.0 == usize::MAX && r.1 == 0,
            self.models().len() > 0 ==> (exists|k: int|
                0 <= k < self.models().len() && r.0 == self.models()[k].stack.len()) && (exists|
                k: int,
            |
                0 <= k < self.models().len() && r.1 == self.models()[k].stack.len()),
    {
        let mut lo: usize = usize::MAX;
        let mut hi: usize = 0;
        let mut k: usize = 0;
        while k < self.states.len()
            invariant
                k <= self.states@.len(),
                self.models().len() == self.states@.len(),
                forall|j: int|
                    0 <= j < k ==> lo <= self.models()[j].stack.len() && self.models()[j].stack.len()
                        <= hi,
                k == 0 ==> lo == usize::MAX && hi == 0,
                k > 0 ==> (exists|j: int| 0 <= j < k && lo == self.models()[j].stack.len()) && (
                exists|j: int| 0 <= j < k && hi == self.models()[j].stack.len()),
            decreases self.states@.len() - k,
        {
            let h = self.states[k].stack().len();
            proof {
                assert(self.models()[k as int] == self.states@[k as int]@);
            }
            if h < lo {
                lo = h;
            }
            if h > hi {
                hi = h;
            }
            if k == 0 && lo == usize::MAX {
                assert(h == usize::MAX);
            }
            k += 1;
        }
        (lo, hi)
    }

    /// The sorted, duplicate-free set of stack heights over the states
    /// at this position.
    pub fn stack_heights(&self) -> (r: Vec<usize>)
        ensures
            strictly_increasing(r@),
            forall|h: usize|
                r@.contains(h) <==> exists|k: int|
                    0 <= k < self.models().len() && self.models()[k].stack.len() == h,
    {
        let mut hs: Vec<usize> = Vec::new();
        let mut k: usize = 0;
        while k < self.states.len()
            invariant
                k <= self.states@.len(),
                self.models().len() == self.states@.len(),
                strictly_increasing(hs@),
                forall|h: usize|
                    hs@.contains(h) <==> exists|j: int|
                        0 <= j < k && self.models()[j].stack.len() == h,
            decreases self.states@.len() - k,
        {
            let h = self.states[k].stack().len();
            proof {
                assert(self.models()[k as int] == self.states@[k as int]@);
            }
            crate::sorted::insert_unique_usize(&mut hs, h);
            k += 1;
        }
        hs
    }

    /// The smallest and largest free-memory pointer over the states at
    /// this position, or `None` when some state leaves it unknown.
    pub fn freemem_ptr_bounds(&self) -> (r: Option<(usize, usize)>)
        ensures
            r is Some <==> (forall|k: int|
                0 <= k < self.models().len() ==> self.models()[k].fmp is Some),
            r matches Some(b) ==> {
                &&& forall|k: int|
                    0 <= k < self.models().len() ==> b.0 <= self.models()[k].fmp->0
                        && self.models()[k].fmp->0 <= b.1
                &&& self.models().len() == 0 ==> b.0 == usize::MAX && b.1 == 0
                &&& self.models().len() > 0 ==> (exists|k: int|
                    0 <= k < self.models().len() && b.0 == self.models()[k].fmp->0) && (exists|
                    k: int,
                |
                    0 <= k < self.models().len() && b.1 == self.models()[k].fmp->0)
            },
    {
        let mut lo: usize = usize::MAX;
        let mut hi: usize = 0;
        let mut k: usize = 0;
        while k < self.states.len()
            invariant
                k <= self.states@.len(),
                self.models().len() == self.states@.len(),
                forall|j: int| 0 <= j < k ==> self.models()[j].fmp is Some,
                forall|j: int|
                    0 <= j < k ==> lo <= self.models()[j].fmp->0 && self.models()[j].fmp->0 <= hi,
                k == 0 ==> lo == usize::MAX && hi == 0,
                k > 0 ==> (exists|j: int| 0 <= j < k && lo == self.models()[j].fmp->0) && (exists|
                    j: int,
                |
                    0 <= j < k && hi == self.models()[j].fmp->0),
            decreases self.states@.len() - k,
        {
            proof {
                assert(self.models()[k as int] == self.states@[k as int]@);
            }
            match self.states[k].freemem_ptr() {
                Some(p) => {
                    if p < lo {
                        lo = p;
                    }
                    if p > hi {
                        hi = p;
                    }
                    proof {
                        if k == 0 && lo == usize::MAX {
                            assert(p == usize::MAX);
                        }
                    }
                },
                None => {
                    return None;
                },
            }
            k += 1;
        }
        Some((lo, hi))
    }

    /// Whether the given stack slot is consumed downstream.
    pub fn necessary_stack_item(&self, item: usize) -> (r: bool)
        ensures
            r == sbit(self.necessary_bits(), item as int),
    {
        self.necessary.get(item)
    }

    /// The consensus of the states at this position.
    pub fn join_states(&self) -> (r: AbstractState)
        requires
            self.models().len() > 0,
        ensures
            r@ == join_fold(self.models()),
    {
        crate::analysis::join_all(self.states.as_slice())
    }

    /// Forget the given stack slot in every state at this position.
    pub fn clear_stack_item(&mut self, item: usize)
        ensures
            final(self).necessary_bits() == old(self).necessary_bits(),
            final(self).models().len() == old(self).models().len(),
            forall|k: int| 0 <= k < final(self).models().len() ==> {
                &&& final(self).models()[k].fmp == old(self).models()[k].fmp
                &&& final(self).models()[k].stack == (if item < old(self).models()[k].stack.len() {
                    old(self).models()[k].stack.update(item as int, None::<W256>)
                } else {
                    old(self).models()[k].stack
                })
            },
    {
        let ghost orig = self.models();
        let mut k: usize = 0;
        while k < self.states.len()
            invariant
                k <= self.states@.len(),
                self.states@.len() == orig.len(),
                self.necessary@ == old(self).necessary@,
                forall|j: int| k <= j < orig.len() ==> self.states@[j]@ == orig[j],
                forall|j: int| 0 <= j < k ==> {
                    &&& self.states@[j]@.fmp == orig[j].fmp
                    &&& self.states@[j]@.stack == (if item < orig[j].stack.len() {
                        orig[j].stack.update(item as int, None::<W256>)
                    } else {
                        orig[j].stack
                    })
                },
            decreases self.states@.len() - k,
        {
            let st = &mut self.states[k];
            st.clear_stack_item(item);
            k += 1;
        }
        proof {
            assert forall|k2: int| 0 <= k2 < final(self).models().len() implies {
                &&& final(self).models()[k2].fmp == orig[k2].fmp
                &&& final(self).models()[k2].stack == (if item < orig[k2].stack.len() {
                    orig[k2].stack.update(item as int, None::<W256>)
                } else {
                    orig[k2].stack
                })
            } by {
                assert(final(self).models()[k2] == self.states@[k2]@);
            }
            assert forall|k2: int| 0 <= k2 < orig.len() implies old(self).models()[k2] == orig[k2]
                by {}
        }
    }

    /// Prune this position to the necessary facts: every stack slot
    /// whose liveness bit is dead is forgotten in every state.  After
    /// the call a slot can hold a value only where its bit is live.
    pub fn minimise(&mut self)
        ensures
            pruned_state(*old(self), *final(self)),
    {
        let (_, height) = self.stack_bounds();
        let ghost orig = self.models();
        let ghost bits = self.necessary_bits();
        let mut i: usize = 0;
        while i < height
            invariant
                self.necessary_bits() == bits,
                self.models().len() == orig.len(),
                forall|k: int| 0 <= k < orig.len() ==> orig[k].stack.len() <= height,
                forall|k: int| 0 <= k < orig.len() ==> self.models()[k].fmp == orig[k].fmp,
                forall|k: int|
                    0 <= k < orig.len() ==> self.models()[k].stack.len() == orig[k].stack.len(),
                forall|k: int, q: int|
                    0 <= k < orig.len() && 0 <= q < orig[k].stack.len()
                        ==> self.models()[k].stack[q] == (if q < i && !sbit(bits, q) {
                        None::<W256>
                    } else {
                        orig[k].stack[q]
                    }),
            decreases height - i,
        {
            let live = self.necessary.get(i);
            let ghost pre = self.models();
            if !live {
                self.clear_stack_item(i);
            }
            proof {
                assert forall|k: int, q: int|
                    0 <= k < orig.len() && 0 <= q < orig[k].stack.len()
                        implies self.models()[k].stack[q] == (if q < i + 1 && !sbit(bits, q) {
                        None::<W256>
                    } else {
                        orig[k].stack[q]
                    }) by {
                    assert(pre[k].stack[q] == (if q < i && !sbit(bits, q) {
                        None::<W256>
                    } else {
                        orig[k].stack[q]
                    }));
                    if live {
                        assert(self.models()[k].stack == pre[k].stack);
                    } else {
                        if i < pre[k].stack.len() {
                            assert(self.models()[k].stack == pre[k].stack.update(
                                i as int,
                                None::<W256>,
                            ));
                        } else {
                            assert(self.models()[k].stack == pre[k].stack);
                        }
                    }
                }
            }
            i += 1;
        }
        proof {
            assert forall|k: int| 0 <= k < final(self).models().len() implies {
                &&& final(self).models()[k].fmp == old(self).models()[k].fmp
                &&& final(self).models()[k].stack.len() == old(self).models()[k].stack.len()
                &&& forall|q: int| 0 <= q < final(self).models()[k].stack.len()
                    ==> final(self).models()[k].stack[q] == (
                    if sbit(old(self).necessary_bits(), q) {
                        old(self).models()[k].stack[q]
                    } else {
                        None::<W256>
                    })
            } by {
                assert forall|q: int| 0 <= q < final(self).models()[k].stack.len()
                    implies final(self).models()[k].stack[q] == (
                    if sbit(old(self).necessary_bits(), q) {
                        old(self).models()[k].stack[q]
                    } else {
                        None::<W256>
                    }) by {
                    assert(self.models()[k].stack[q] == (if q < i && !sbit(bits, q) {
                        None::<W256>
                    } else {
                        orig[k].stack[q]
                    }));
                }
            }
        }
    }

    /// A copy of the liveness bits at this position.
    pub fn necessary_dup(&self) -> (r: NecessaryState)
        ensures
            r@ == self.necessary_bits(),
    {
        self.necessary.dup()
    }

    /// Merge liveness bits into this position.  Returns whether any
    /// live bit was added.
    pub fn join_necessary(&mut self, other: &NecessaryState) -> (r: bool)
        ensures
            final(self).models() == old(self).models(),
            final(self).necessary_bits() == sjoin(old(self).necessary_bits(), other@),
    {
        self.necessary.join(other)
    }

    /// A copy of this position record, equal to it at the model level.
    pub fn dup(&self) -> (r: BlockState)
        ensures
            r.models() == self.models(),
            r.necessary_bits() == self.necessary_bits(),
    {
        let mut states: Vec<AbstractState> = Vec::new();
        let mut k: usize = 0;
        while k < self.states.len()
            invariant
                k <= self.states@.len(),
                states@.len() == k,
                forall|j: int| 0 <= j < k ==> states@[j]@ == self.states@[j]@,
            decreases self.states@.len() - k,
        {
            states.push(self.states[k].dup());
            k += 1;
        }
        let r = BlockState { states, necessary: self.necessary.dup() };
        proof {
            assert(r.models() =~= self.models());
        }
        r
    }
}


/// How a position record looks after pruning: the liveness bits are
/// kept, and every state keeps exactly the slots whose bit is live.
pub open spec fn pruned_state(o: BlockState, n: BlockState) -> bool {
    &&& n.necessary_bits() == o.necessary_bits()
    &&& n.models().len() == o.models().len()
    &&& forall|k: int| 0 <= k < n.models().len() ==> {
        &&& n.models()[k].fmp == o.models()[k].fmp
        &&& n.models()[k].stack.len() == o.models()[k].stack.len()
        &&& forall|q: int| 0 <= q < n.models()[k].stack.len() ==> n.models()[k].stack[q] == (
            if sbit(o.necessary_bits(), q) {
                o.models()[k].stack[q]
            } else {
                None::<W256>
            })
    }
}

// ===================================================================
// Blocks
// ===================================================================

/// Model equality of bytecodes: the same tag with the same contents.
pub open spec fn bytecode_eqv(a: Bytecode, b: Bytecode) -> bool {
    match (a, b) {
        (Bytecode::Comment(x), Bytecode::Comment(y)) => x@ == y@,
        (Bytecode::Assert(xu, xs), Bytecode::Assert(yu, ys)) => xu@ == yu@ && xs@ == ys@,
        (Bytecode::Mask(x), Bytecode::Mask(y)) => x == y,
        (Bytecode::Unit(x), Bytecode::Unit(y)) => crate::instr::instr_eqv(x, y),
        (Bytecode::JumpI(x), Bytecode::JumpI(y)) => x@ == y@,
        (Bytecode::Jump(x), Bytecode::Jump(y)) => x@ == y@,
        _ => false,
    }
}

/// Model-equal bytecodes span the same bytes and agree on target
/// sortedness and witness bounds.
pub proof fn lemma_bytecode_eqv(a: Bytecode, b: Bytecode)
    requires
        bytecode_eqv(a, b),
    ensures
        bc_len(a) == bc_len(b),
        bc_targets_sorted(a) == bc_targets_sorted(b),
        bc_uses_small(a) == bc_uses_small(b),
{
    match (a, b) {
        (Bytecode::Unit(x), Bytecode::Unit(y)) => {
            crate::instr::lemma_instr_eqv_tables(x, y);
        },
        _ => {},
    }
}

/// Copy a vector of offsets element by element.
pub fn copy_usizes(v: &Vec<usize>) -> (r: Vec<usize>)
    ensures
        r@ == v@,
{
    let mut out: Vec<usize> = Vec::new();
    let mut i: usize = 0;
    while i < v.len()
        invariant
            i <= v@.len(),
            out@ == v@.subrange(0, i as int),
        decreases v@.len() - i,
    {
        out.push(v[i]);
        i += 1;
    }
    assert(out@ =~= v@);
    out
}

/// A model-level copy of a sound block is sound.
pub proof fn lemma_block_eqv_wf(a: Block, b: Block)
    requires
        block_eqv(a, b),
        block_wf(a),
    ensures
        block_wf(b),
{
    assert forall|j: int| 0 <= j < b.bytecodes_seq().len() implies bc_targets_sorted(
        b.bytecodes_seq()[j],
    ) && bc_uses_small(b.bytecodes_seq()[j]) by {
        lemma_bytecode_eqv(a.bytecodes_seq()[j], b.bytecodes_seq()[j]);
    }
}

/// A copy of a bytecode, equal to it at the model level.
pub fn dup_bytecode(bc: &Bytecode) -> (r: Bytecode)
    ensures
        bytecode_eqv(r, *bc),
{
    match bc {
        Bytecode::Comment(s) => Bytecode::Comment(s.clone()),
        Bytecode::Assert(u, s) => Bytecode::Assert(copy_usizes(u), s.clone()),
        Bytecode::Mask(w) => Bytecode::Mask(*w),
        Bytecode::Unit(i) => Bytecode::Unit(i.duplicate()),
        Bytecode::JumpI(ts) => Bytecode::JumpI(copy_usizes(ts)),
        Bytecode::Jump(ts) => Bytecode::Jump(copy_usizes(ts)),
    }
}

/// A super-block: its starting byte offset, its tagged bytecodes, the
/// per-position state records, and the fall-through successor, if any.
#[derive(Debug)]
pub struct Block {
    pc: usize,
    states: Vec<BlockState>,
    bytecodes: Vec<Bytecode>,
    next: Option<usize>,
}

/// Model equality of blocks.
pub open spec fn block_eqv(a: Block, b: Block) -> bool {
    &&& a.spec_pc() == b.spec_pc()
    &&& a.spec_next() == b.spec_next()
    &&& a.bytecodes_seq().len() == b.bytecodes_seq().len()
    &&& forall|j: int|
        0 <= j < a.bytecodes_seq().len() ==> bytecode_eqv(
            a.bytecodes_seq()[j],
            b.bytecodes_seq()[j],
        )
    &&& a.states_seq().len() == b.states_seq().len()
    &&& forall|j: int| 0 <= j < a.states_seq().len() ==> {
        &&& a.states_seq()[j].models() == b.states_seq()[j].models()
        &&& a.states_seq()[j].necessary_bits() == b.states_seq()[j].necessary_bits()
    }
}

impl Block {
    /// The block's starting byte offset.
    pub closed spec fn spec_pc(&self) -> usize {
        self.pc
    }

    /// The fall-through successor, if any.
    pub closed spec fn spec_next(&self) -> Option<usize> {
        self.next
    }

    /// The per-position state records.
    pub closed spec fn states_seq(&self) -> Seq<BlockState> {
        self.states@
    }

    /// The block's bytecodes.
    pub closed spec fn bytecodes_seq(&self) -> Seq<Bytecode> {
        self.bytecodes@
    }

    pub fn pc(&self) -> (r: usize)
        ensures
            r == self.spec_pc(),
    {
        self.pc
    }

    /// The state record before the given bytecode.
    pub fn state(&self, i: usize) -> (r: &BlockState)
        requires
            i < self.states_seq().len(),
        ensures
            *r == self.states_seq()[i as int],
    {
        &self.states[i]
    }

    /// The per-position state records.
    pub fn states(&self) -> (r: &[BlockState])
        ensures
            r@ == self.states_seq(),
    {
        self.states.as_slice()
    }

    /// The abstract states on entry to this block.
    pub fn entry_states(&self) -> (r: &[AbstractState])
        requires
            self.states_seq().len() > 0,
        ensures
            r@.map_values(|x: AbstractState| x@) == self.states_seq()[0].models(),
    {
        self.states[0].states()
    }

    /// The block's bytecodes.
    pub fn bytecodes(&self) -> (r: &[Bytecode])
        ensures
            r@ == self.bytecodes_seq(),
    {
        self.bytecodes.as_slice()
    }

    /// Stack height bounds on entry to this block.
    pub fn stack_bounds(&self) -> (r: (usize, usize))
        requires
            self.states_seq().len() > 0,
        ensures
            forall|k: int|
                0 <= k < self.states_seq()[0].models().len() ==> r.0
                    <= self.states_seq()[0].models()[k].stack.len()
                    && self.states_seq()[0].models()[k].stack.len() <= r.1,
            self.states_seq()[0].models().len() == 0 ==> r.0 == usize::MAX && r.1 == 0,
    {
        self.states[0].stack_bounds()
    }

    /// The distinct stack heights on entry to this block, sorted.
    pub fn stack_heights(&self) -> (r: Vec<usize>)
        requires
            self.states_seq().len() > 0,
        ensures
            strictly_increasing(r@),
            forall|h: usize|
                r@.contains(h) <==> exists|k: int|
                    0 <= k < self.states_seq()[0].models().len()
                        && self.states_seq()[0].models()[k].stack.len() == h,
    {
        self.states[0].stack_heights()
    }

    /// Free-memory-pointer bounds on entry to this block.
    pub fn freemem_ptrs(&self) -> (r: Option<(usize, usize)>)
        requires
            self.states_seq().len() > 0,
        ensures
            r is Some <==> (forall|k: int|
                0 <= k < self.states_seq()[0].models().len()
                    ==> self.states_seq()[0].models()[k].fmp is Some),
    {
        self.states[0].freemem_ptr_bounds()
    }

    /// A block is unreachable when the flow analysis reached it with no
    /// state at all.
    pub fn is_unreachable(&self) -> (r: bool)
        requires
            self.states_seq().len() > 0,
        ensures
            r == (self.states_seq()[0].models().len() == 0),
    {
        self.states[0].states().len() == 0
    }

    pub fn next(&self) -> (r: Option<usize>)
        ensures
            r == self.spec_next(),
    {
        self.next
    }

    /// Iterate over the block's bytecodes.
    pub fn iter(&self) -> (r: core::slice::Iter<'_, Bytecode>)
        ensures
            vstd::std_specs::slice::into_iter_elts(r) == self.bytecodes_seq(),
    {
        self.bytecodes.as_slice().iter()
    }

    /// The consensus of the entry states.
    pub fn entry_state(&self) -> (r: AbstractState)
        requires
            self.states_seq().len() > 0,
            self.states_seq()[0].models().len() > 0,
        ensures
            r@ == join_fold(self.states_seq()[0].models()),
    {
        self.states[0].join_states()
    }

    /// The bytecode at the given position.
    pub fn bytecode_at(&self, j: usize) -> (r: &Bytecode)
        requires
            j < self.bytecodes_seq().len(),
        ensures
            *r == self.bytecodes_seq()[j as int],
    {
        &self.bytecodes[j]
    }

    /// Merge liveness bits into one position of this block.
    pub fn join_necessary_at(&mut self, j: usize, other: &NecessaryState) -> (r: bool)
        requires
            j < old(self).states_seq().len(),
        ensures
            final(self).spec_pc() == old(self).spec_pc(),
            final(self).spec_next() == old(self).spec_next(),
            final(self).bytecodes_seq() == old(self).bytecodes_seq(),
            final(self).states_seq().len() == old(self).states_seq().len(),
            forall|k: int|
                0 <= k < final(self).states_seq().len() ==> final(self).states_seq()[k].models()
                    == old(self).states_seq()[k].models(),
            forall|k: int|
                0 <= k < final(self).states_seq().len() && k != j
                    ==> final(self).states_seq()[k].necessary_bits()
                    == old(self).states_seq()[k].necessary_bits(),
            final(self).states_seq()[j as int].necessary_bits() == sjoin(
                old(self).states_seq()[j as int].necessary_bits(),
                other@,
            ),
    {
        let st = &mut self.states[j];
        st.join_necessary(other)
    }

    /// Prune every position of this block to the necessary facts.
    pub fn minimise(&mut self)
        ensures
            final(self).spec_pc() == old(self).spec_pc(),
            final(self).spec_next() == old(self).spec_next(),
            final(self).bytecodes_seq() == old(self).bytecodes_seq(),
            final(self).states_seq().len() == old(self).states_seq().len(),
            forall|j: int|
                0 <= j < final(self).states_seq().len() ==> pruned_state(
                    old(self).states_seq()[j],
                    final(self).states_seq()[j],
                ),
    {
        let ghost orig = self.states@;
        let mut j: usize = 0;
        while j < self.states.len()
            invariant
                j <= self.states@.len(),
                self.states@.len() == orig.len(),
                self.pc == old(self).pc,
                self.next == old(self).next,
                self.bytecodes@ == old(self).bytecodes@,
                forall|k: int| j <= k < orig.len() ==> self.states@[k] == orig[k],
                forall|k: int| 0 <= k < j ==> pruned_state(orig[k], self.states@[k]),
            decreases self.states@.len() - j,
        {
            let st = &mut self.states[j];
            st.minimise();
            j += 1;
        }
    }

    /// A copy of this block, equal to it at the model level.
    pub fn dup(&self) -> (r: Block)
        ensures
            block_eqv(r, *self),
    {
        let mut states: Vec<BlockState> = Vec::new();
        let mut j: usize = 0;
        while j < self.states.len()
            invariant
                j <= self.states@.len(),
                states@.len() == j,
                forall|k: int| 0 <= k < j ==> {
                    &&& states@[k].models() == self.states@[k].models()
                    &&& states@[k].necessary_bits() == self.states@[k].necessary_bits()
                },
            decreases self.states@.len() - j,
        {
            states.push(self.states[j].dup());
            j += 1;
        }
        let mut bytecodes: Vec<Bytecode> = Vec::new();
        let mut j2: usize = 0;
        while j2 < self.bytecodes.len()
            invariant
                j2 <= self.bytecodes@.len(),
                bytecodes@.len() == j2,
                forall|k: int| 0 <= k < j2 ==> bytecode_eqv(bytecodes@[k], self.bytecodes@[k]),
            decreases self.bytecodes@.len() - j2,
        {
            bytecodes.push(dup_bytecode(&self.bytecodes[j2]));
            j2 += 1;
        }
        Block { pc: self.pc, states, bytecodes, next: self.next }
    }
}


// ===================================================================
// Block construction
// ===================================================================

/// The byte offset of instruction `k` within the stream: the summed
/// lengths of the instructions before it.
pub open spec fn span_of(instrs: Seq<Instr>, k: int) -> int
    decreases k,
{
    if k <= 0 {
        0
    } else {
        span_of(instrs, k - 1) + instrs[k - 1].spec_length()
    }
}

/// The bytes spanned by a sequence of block bytecodes.
pub open spec fn spans(s: Seq<Bytecode>) -> int
    decreases s.len(),
{
    if s.len() == 0 {
        0
    } else {
        spans(s.drop_last()) + bc_len(s.last())
    }
}

/// Prefix spans never decrease (every length is non-negative).
pub proof fn lemma_span_monotone(instrs: Seq<Instr>, j: int, k: int)
    requires
        0 <= j <= k,
    ensures
        span_of(instrs, j) <= span_of(instrs, k),
    decreases k - j,
{
    if j < k {
        lemma_span_monotone(instrs, j, k - 1);
        assert(instrs[k - 1].spec_length() >= 0);
    }
}

/// Appending a bytecode extends the span by its length.
pub proof fn lemma_spans_push(s: Seq<Bytecode>, b: Bytecode)
    ensures
        spans(s.push(b)) == spans(s) + bc_len(b),
{
    assert(s.push(b).drop_last() =~= s);
}

/// The byte offset of every instruction, and one past the last.
/// Succeeds exactly when the stream fits the native range.
pub fn compute_offsets(instrs: &Vec<Instr>) -> (r: Result<Vec<usize>, Error>)
    ensures
        r matches Ok(o) ==> {
            &&& o@.len() == instrs@.len() + 1
            &&& forall|k: int| 0 <= k <= instrs@.len() ==> o@[k] == span_of(instrs@, k)
        },
        r is Ok <==> span_of(instrs@, instrs@.len() as int) <= usize::MAX,
        r is Err ==> r == Err::<Vec<usize>, Error>(Error::Oversized),
{
    let mut out: Vec<usize> = Vec::new();
    let mut acc: usize = 0;
    out.push(0);
    let mut k: usize = 0;
    while k < instrs.len()
        invariant
            k <= instrs@.len(),
            out@.len() == k + 1,
            acc == span_of(instrs@, k as int),
            forall|j: int| 0 <= j <= k ==> out@[j] == span_of(instrs@, j),
        decreases instrs@.len() - k,
    {
        let l = match instrs[k].checked_length() {
            Some(l) => l,
            None => {
                proof {
                    assert(span_of(instrs@, k + 1) > usize::MAX);
                    lemma_span_monotone(instrs@, k + 1, instrs@.len() as int);
                }
                return Err(Error::Oversized);
            },
        };
        if l > usize::MAX - acc {
            proof {
                assert(span_of(instrs@, k + 1) > usize::MAX);
                lemma_span_monotone(instrs@, k + 1, instrs@.len() as int);
            }
            return Err(Error::Oversized);
        }
        acc = acc + l;
        out.push(acc);
        k += 1;
    }
    Ok(out)
}

// ===================================================================
// Precondition hook
// ===================================================================

/// The precondition hook: which asserts are injected ahead of each
/// instruction.
#[derive(Clone, Copy, Debug, PartialEq, Eq, Structural)]
pub enum PrecheckPolicy {
    /// Inject nothing.
    NoChecks,
    /// Inject overflow/underflow asserts ahead of `ADD`, `MUL` and
    /// `SUB`, keeping both operands alive.
    OverflowChecks,
}

/// The assert text injected ahead of an `ADD`.
pub open spec fn add_check_text() -> Seq<char> {
    "(st.Peek(0) + st.Peek(1)) <= (MAX_U256 as u256)"@
}

/// The assert text injected ahead of a `MUL`.
pub open spec fn mul_check_text() -> Seq<char> {
    "(st.Peek(0) * st.Peek(1)) <= (MAX_U256 as u256)"@
}

/// The assert text injected ahead of a `SUB`.
pub open spec fn sub_check_text() -> Seq<char> {
    "st.Peek(1) <= st.Peek(0)"@
}

/// How many bytecodes the hook injects ahead of an instruction.
pub open spec fn precheck_count(policy: PrecheckPolicy, insn: Instr) -> int {
    if policy is OverflowChecks && (insn matches Instr::Other { op, .. } && (op == 0x01 || op
        == 0x02 || op == 0x03)) {
        1
    } else {
        0
    }
}

/// The text of the injected assert for the given opcode.
pub open spec fn precheck_text(op: u8) -> Seq<char> {
    if op == 0x01 {
        add_check_text()
    } else if op == 0x02 {
        mul_check_text()
    } else {
        sub_check_text()
    }
}

/// Invoke the precondition hook for one instruction, appending any
/// injected asserts.  The overflow hook asserts with the witness set
/// `{0, 1}` so the liveness pass keeps both operands alive.
pub fn apply_precheck(policy: PrecheckPolicy, insn: &Instr, codes: &mut Vec<Bytecode>)
    ensures
        final(codes)@.len() == old(codes)@.len() + precheck_count(policy, *insn),
        forall|j: int| 0 <= j < old(codes)@.len() ==> final(codes)@[j] == old(codes)@[j],
        spans(final(codes)@) == spans(old(codes)@),
        precheck_count(policy, *insn) == 1 ==> (final(codes)@.last() matches Bytecode::Assert(
            u,
            s,
        ) && u@ == seq![0usize, 1usize] && (insn matches Instr::Other { op, .. } && s@
            == precheck_text(*op))),
        forall|j: int|
            old(codes)@.len() <= j < final(codes)@.len() ==> final(codes)@[j] is Assert
                && bc_uses_small(final(codes)@[j]),
{
    match policy {
        PrecheckPolicy::NoChecks => {},
        PrecheckPolicy::OverflowChecks => {
            match insn {
                Instr::Other { op, pops: _, fallthru: _ } => {
                    let text: String;
                    if *op == 0x01 {
                        text = String::from_str("(st.Peek(0) + st.Peek(1)) <= (MAX_U256 as u256)");
                    } else if *op == 0x02 {
                        text = String::from_str("(st.Peek(0) * st.Peek(1)) <= (MAX_U256 as u256)");
                    } else if *op == 0x03 {
                        text = String::from_str("st.Peek(1) <= st.Peek(0)");
                    } else {
                        return ;
                    }
                    let mut uses: Vec<usize> = Vec::new();
                    uses.push(0);
                    uses.push(1);
                    proof {
                        assert(uses@ =~= seq![0usize, 1usize]);
                    }
                    let bc = Bytecode::Assert(uses, text);
                    let ghost pre = codes@;
                    codes.push(bc);
                    proof {
                        lemma_spans_push(pre, codes@.last());
                    }
                },
                _ => {},
            }
        },
    }
}

// ===================================================================
// Instruction translation
// ===================================================================

/// The comment text standing in for a virtual `HAVOC`.
pub open spec fn havoc_comment(n: int) -> Seq<char> {
    "Havoc "@ + crate::render::spec_udec(n)
}

/// The consensus value of the given stack slot over a set of states,
/// if any state reached this point and the consensus knows the slot.
pub open spec fn spec_operand(models: Seq<AbsModel>, index: int) -> Option<W256> {
    if models.len() > 0 && 0 <= index < join_fold(models).stack.len() {
        join_fold(models).stack[index]
    } else {
        None
    }
}

/// Extract a single consensus value for a given stack slot.
fn operand(index: usize, states: &[AbstractState]) -> (r: Option<W256>)
    ensures
        r == spec_operand(states@.map_values(|s: AbstractState| s@), index as int),
{
    if states.len() == 0 {
        return None;
    }
    let joined = crate::analysis::join_all(states);
    let frame = joined.stack();
    if index < frame.len() {
        frame[index]
    } else {
        None
    }
}

/// Copy a slice of abstract states, preserving each model.
pub fn dup_states(sts: &[AbstractState]) -> (r: Vec<AbstractState>)
    ensures
        r@.map_values(|x: AbstractState| x@) == sts@.map_values(|x: AbstractState| x@),
{
    let mut out: Vec<AbstractState> = Vec::new();
    let mut k: usize = 0;
    while k < sts.len()
        invariant
            k <= sts@.len(),
            out@.len() == k,
            forall|j: int| 0 <= j < k ==> out@[j]@ == sts@[j]@,
        decreases sts@.len() - k,
    {
        out.push(sts[k].dup());
        k += 1;
    }
    proof {
        assert(out@.map_values(|x: AbstractState| x@) =~= sts@.map_values(
            |x: AbstractState| x@,
        ));
    }
    out
}

/// Whether the translator accepts an instruction given the abstract
/// states reaching it: static jumps are unsupported, and an indirect
/// branch needs every reached top-of-stack known and within range.
pub open spec fn translatable(insn: Instr, row: Seq<AbsModel>) -> bool {
    &&& !(insn is RJump || insn is RJumpI)
    &&& ((insn is Jump || insn is JumpI) ==> crate::analysis::targets_resolved(row))
}

/// Translate one instruction into its block bytecode.  An `AND` whose
/// consensus top-of-stack is a canonical mask becomes `Mask`; a
/// `HAVOC` becomes a comment; `JUMP`/`JUMPI` resolve their targets
/// from the reached states; `RJUMP`/`RJUMPI` are unsupported;
/// everything else is carried verbatim.  The returned flag says
/// whether the instruction ends its block.
pub fn translate_insn(pc: usize, insn: &Instr, states: &[AbstractState]) -> (r: Result<
    (Bytecode, bool),
    Error,
>)
    ensures
        r matches Ok(p) ==> {
            &&& bc_len(p.0) == insn.spec_length()
            &&& p.1 == !insn.spec_fallthru()
            &&& bc_targets_sorted(p.0)
            &&& bc_uses_small(p.0)
        },
        r is Ok <==> translatable(*insn, states@.map_values(|s: AbstractState| s@)),
        r matches Err(e) ==> (e is Unsupported || e is UnresolvedBranch),
        (insn is RJump || insn is RJumpI) ==> r == Err::<(Bytecode, bool), Error>(
            Error::Unsupported(pc),
        ),
        ((insn is Jump || insn is JumpI) && !crate::analysis::targets_resolved(
            states@.map_values(|s: AbstractState| s@),
        )) ==> r == Err::<(Bytecode, bool), Error>(Error::UnresolvedBranch(pc)),
        r matches Ok(p) ==> match insn {
            Instr::Havoc(n) => p.0 matches Bytecode::Comment(c) && c@ == havoc_comment(*n as int),
            Instr::Jump => p.0 is Jump,
            Instr::JumpI => p.0 is JumpI,
            Instr::Other { op, .. } => {
                if op == crate::instr::OP_AND && (spec_operand(
                    states@.map_values(|s: AbstractState| s@),
                    0,
                ) matches Some(w) && w.spec_mask_width() != 0) {
                    p.0 == Bytecode::Mask((spec_operand(
                        states@.map_values(|s: AbstractState| s@),
                        0,
                    ))->0.spec_mask_width())
                } else {
                    p.0 matches Bytecode::Unit(i2) && crate::instr::instr_eqv(i2, *insn)
                }
            },
            _ => p.0 matches Bytecode::Unit(i2) && crate::instr::instr_eqv(i2, *insn),
        },
        r matches Ok(p) ==> ((insn is Jump || insn is JumpI) ==> (match p.0 {
            Bytecode::Jump(ts) => forall|t: usize|
                ts@.contains(t) <==> exists|k: int|
                    0 <= k < states@.len() && states@[k]@.stack.len() > 0 && (
                    states@[k]@.stack[0] matches Some(w) && w.value() == t),
            Bytecode::JumpI(ts) => forall|t: usize|
                ts@.contains(t) <==> exists|k: int|
                    0 <= k < states@.len() && states@[k]@.stack.len() > 0 && (
                    states@[k]@.stack[0] matches Some(w) && w.value() == t),
            _ => true,
        })),
{
    match insn {
        Instr::Other { op, pops: _, fallthru } => {
            if *op == crate::instr::OP_AND {
                match operand(0, states) {
                    Some(w) => {
                        let width = w.as_bit_mask();
                        if width != 0 {
                            return Ok((Bytecode::Mask(width), !*fallthru));
                        }
                    },
                    None => {},
                }
            }
            Ok((Bytecode::Unit(insn.duplicate()), !*fallthru))
        },
        Instr::Havoc(n) => {
            let mut c = String::from_str("Havoc ");
            crate::render::append_udec(&mut c, *n);
            Ok((Bytecode::Comment(c), false))
        },
        Instr::JumpI => {
            match jump_targets(pc, states) {
                Ok(ts) => Ok((Bytecode::JumpI(ts), false)),
                Err(e) => Err(e),
            }
        },
        Instr::Jump => {
            match jump_targets(pc, states) {
                Ok(ts) => Ok((Bytecode::Jump(ts), true)),
                Err(e) => Err(e),
            }
        },
        Instr::RJump(_) => Err(Error::Unsupported(pc)),
        Instr::RJumpI(_) => Err(Error::Unsupported(pc)),
        Instr::Data(_) => Ok((Bytecode::Unit(insn.duplicate()), true)),
        _ => Ok((Bytecode::Unit(insn.duplicate()), !insn.fallthru())),
    }
}


/// Whether a position's models are the analysis row of an instruction
/// in the given range.
pub open spec fn row_attached(
    analysis: Seq<Seq<AbsModel>>,
    lo: int,
    hi: int,
    m: Seq<AbsModel>,
) -> bool {
    exists|i2: int| lo <= i2 < hi && m == analysis[i2]
}

/// Whether a block's entry snapshot is the analysis row of the
/// instruction starting at its entry offset.
pub open spec fn entry_attached(
    instrs: Seq<Instr>,
    analysis: Seq<Seq<AbsModel>>,
    b: Block,
) -> bool {
    exists|i2: int|
        0 <= i2 < instrs.len() && span_of(instrs, i2) == b.spec_pc() && b.states_seq().len() > 0
            && b.states_seq()[0].models() == analysis[i2]
}

/// Whether a bytecode is a verbatim jump destination.
pub open spec fn bc_is_jumpdest(bc: Bytecode) -> bool {
    match bc {
        Bytecode::Unit(i) => i is JumpDest,
        _ => false,
    }
}

/// A structurally sound block: one state record per bytecode, at
/// least one bytecode, sorted branch targets throughout, and
/// representable witness indices.
pub open spec fn block_wf(b: Block) -> bool {
    &&& b.states_seq().len() == b.bytecodes_seq().len()
    &&& b.bytecodes_seq().len() > 0
    &&& forall|j: int| 0 <= j < b.bytecodes_seq().len() ==> bc_targets_sorted(
        b.bytecodes_seq()[j],
    )
    &&& forall|j: int| 0 <= j < b.bytecodes_seq().len() ==> bc_uses_small(b.bytecodes_seq()[j])
}

/// Every liveness bit of the block is still unset.
pub open spec fn block_fresh(b: Block) -> bool {
    forall|j: int| 0 <= j < b.states_seq().len() ==> b.states_seq()[j].necessary_bits().len() == 0
}

/// Extract the next block starting at byte offset `pc` (instruction
/// offset `index`).  The block is cut at terminators, at fall-through
/// terminators (a conditional branch closes its block), at a
/// `JUMPDEST` that is not its first instruction, and at the size
/// budget; a block cut while control can still fall through records
/// the following byte offset as its successor.
fn insns_to_block(
    n: usize,
    pc: usize,
    index: usize,
    instrs: &Vec<Instr>,
    offsets: &Vec<usize>,
    analysis: &BytecodeAnalysis,
    policy: PrecheckPolicy,
) -> (r: Result<(usize, usize, Block), Error>)
    requires
        n >= 1,
        index < instrs@.len(),
        offsets@.len() == instrs@.len() + 1,
        forall|k: int| 0 <= k <= instrs@.len() ==> offsets@[k] == span_of(instrs@, k),
        analysis@.len() == instrs@.len(),
        pc == offsets@[index as int],
    ensures
        r matches Ok(p) ==> {
            &&& index < p.1 <= instrs@.len()
            &&& p.0 == offsets@[p.1 as int]
            &&& p.2.spec_pc() == pc
            &&& spans(p.2.bytecodes_seq()) == p.0 - pc
            &&& block_wf(p.2)
            &&& block_fresh(p.2)
            &&& (p.2.spec_next() matches Some(q) ==> q == p.0)
            &&& (p.2.spec_next() is Some <==> (instrs@[p.1 - 1].spec_fallthru() && (
            instrs@[p.1 - 1] is JumpI || (p.1 < instrs@.len() && instrs@[p.1 as int] is JumpDest)
                || p.1 - index == n)))
            &&& forall|j: int|
                0 < j < p.2.bytecodes_seq().len() ==> !bc_is_jumpdest(
                    #[trigger] p.2.bytecodes_seq()[j],
                )
            &&& p.2.states_seq().len() > 0 && p.2.states_seq()[0].models() == analysis@[
                index as int
            ]
            &&& forall|k: int|
                0 <= k < p.2.states_seq().len() ==> row_attached(
                    analysis@,
                    index as int,
                    p.1 as int,
                    (#[trigger] p.2.states_seq()[k]).models(),
                )
            &&& forall|i2: int|
                index <= i2 < p.1 ==> translatable(#[trigger] instrs@[i2], analysis@[i2])
        },
        r is Err ==> exists|i2: int|
            index <= i2 < instrs@.len() && !translatable(
                #[trigger] instrs@[i2],
                analysis@[i2],
            ),
        r matches Err(e) ==> (e is Unsupported || e is UnresolvedBranch),
{
    let mut i: usize = index;
    let mut cur_pc: usize = pc;
    let mut budget: usize = n;
    let mut bytecodes: Vec<Bytecode> = Vec::new();
    let mut states: Vec<BlockState> = Vec::new();
    let mut next: Option<usize> = None;
    let mut done = false;
    let mut stopped = false;
    while !done && !stopped && i < instrs.len() && budget > 0
        invariant
            n >= 1,
            index <= i <= instrs@.len(),
            offsets@.len() == instrs@.len() + 1,
            forall|k: int| 0 <= k <= instrs@.len() ==> offsets@[k] == span_of(instrs@, k),
            analysis@.len() == instrs@.len(),
            pc == offsets@[index as int],
            cur_pc == offsets@[i as int],
            budget == n - (i - index),
            states@.len() == bytecodes@.len(),
            spans(bytecodes@) == cur_pc - pc,
            forall|j: int| 0 <= j < bytecodes@.len() ==> bc_targets_sorted(bytecodes@[j]),
            forall|j: int| 0 <= j < bytecodes@.len() ==> bc_uses_small(bytecodes@[j]),
            forall|j: int|
                0 < j < bytecodes@.len() ==> !bc_is_jumpdest(#[trigger] bytecodes@[j]),
            forall|j: int| 0 <= j < states@.len() ==> states@[j].necessary_bits().len() == 0,
            states@.len() > 0 ==> states@[0].models() == analysis@[index as int],
            forall|k2: int|
                0 <= k2 < states@.len() ==> row_attached(
                    analysis@,
                    index as int,
                    i as int,
                    (#[trigger] states@[k2]).models(),
                ),
            forall|i2: int|
                index <= i2 < i ==> translatable(#[trigger] instrs@[i2], analysis@[i2]),
            i == index ==> !done && !stopped && bytecodes@.len() == 0,
            i > index ==> bytecodes@.len() > 0,
            i > index ==> done == !instrs@[i - 1].spec_fallthru(),
            stopped ==> !done,
            stopped ==> (instrs@[i - 1] is JumpI || (i < instrs@.len() && instrs@[i as int]
                is JumpDest)),
            !stopped && i > index && instrs@[i - 1] is JumpI ==> done,
            stopped ==> next == Some(cur_pc) && i > index,
            !stopped ==> next is None,
        decreases instrs@.len() - i + (if done || stopped { 0int } else { 1 }),
    {
        let insn = &instrs[i];
        let is_jumpdest = matches!(insn, Instr::JumpDest);
        if is_jumpdest && i != index {
            // A jump destination can only start a block: split here and
            // leave it for the next block.
            next = Some(cur_pc);
            stopped = true;
        } else {
            // Inject any precondition checks.
            apply_precheck(policy, insn, &mut bytecodes);
            let row = analysis.get_states(i);
            let bc: Bytecode;
            let d: bool;
            proof {
                assert(row@.map_values(|s: AbstractState| s@) == analysis@[i as int]);
            }
            if is_jumpdest {
                // The leading jump destination itself is verbatim.
                let copy = insn.duplicate();
                proof {
                    crate::instr::lemma_instr_eqv_tables(copy, *insn);
                }
                bc = Bytecode::Unit(copy);
                d = false;
            } else {
                match translate_insn(cur_pc, insn, row) {
                    Ok(p) => {
                        bc = p.0;
                        d = p.1;
                    },
                    Err(e) => {
                        proof {
                            assert(!translatable(instrs@[i as int], analysis@[i as int]));
                        }
                        return Err(e);
                    },
                }
            }
            proof {
                lemma_spans_push(bytecodes@, bc);
                assert(bc_len(bc) == insn.spec_length());
            }
            let is_jumpi = matches!(bc, Bytecode::JumpI(_));
            bytecodes.push(bc);
            // Attach the entry snapshot to every freshly added bytecode.
            while states.len() < bytecodes.len()
                invariant
                    states@.len() <= bytecodes@.len(),
                    index <= i < analysis@.len(),
                    forall|j: int| 0 <= j < states@.len() ==> states@[j].necessary_bits().len()
                        == 0,
                    states@.len() == 0 ==> i == index,
                    states@.len() > 0 ==> states@[0].models() == analysis@[index as int],
                    forall|k2: int|
                        0 <= k2 < states@.len() ==> row_attached(
                            analysis@,
                            index as int,
                            i + 1,
                            (#[trigger] states@[k2]).models(),
                        ),
                decreases bytecodes@.len() - states@.len(),
            {
                let ghost pre_states = states@;
                let snap = BlockState::new(dup_states(analysis.get_states(i)));
                proof {
                    assert(snap.models() == analysis@[i as int]);
                }
                states.push(snap);
                proof {
                    if pre_states.len() == 0 {
                        assert(i == index);
                        assert(states@[0].models() == analysis@[index as int]);
                    }
                    assert forall|k2: int|
                        0 <= k2 < states@.len() implies row_attached(
                        analysis@,
                        index as int,
                        i + 1,
                        (#[trigger] states@[k2]).models(),
                    ) by {
                        if k2 < pre_states.len() {
                            assert(states@[k2] == pre_states[k2]);
                        } else {
                            assert(states@[k2].models() == analysis@[i as int]);
                        }
                    }
                }
            }
            proof {
                assert(offsets@[i + 1] == span_of(instrs@, i + 1));
                assert(span_of(instrs@, i + 1) == span_of(instrs@, i as int)
                    + instrs@[i as int].spec_length());
            }
            cur_pc = offsets[i + 1];
            i += 1;
            budget -= 1;
            done = d;
            if is_jumpi && !done {
                // A conditional branch ends its block; control may
                // still fall through to the next offset.
                next = Some(cur_pc);
                stopped = true;
            }
        }
    }
    if budget == 0 && !done && !stopped {
        next = Some(cur_pc);
    }
    let block = Block { pc, states, bytecodes, next };
    Ok((cur_pc, i, block))
}

/// Decompose a whole instruction stream into its super-blocks.  The
/// blocks cover the stream contiguously from offset zero to the end of
/// the last translated instruction, and a recorded fall-through
/// successor is always the byte offset one past its block.
pub fn insns_to_blocks(
    n: usize,
    instrs: &Vec<Instr>,
    analysis: &BytecodeAnalysis,
    policy: PrecheckPolicy,
) -> (r: Result<Vec<Block>, Error>)
    requires
        analysis@.len() == instrs@.len(),
    ensures
        r is Ok <==> (span_of(instrs@, instrs@.len() as int) <= usize::MAX && (n == 0 || forall|
            i: int,
        |
            0 <= i < instrs@.len() ==> translatable(#[trigger] instrs@[i], analysis@[i]))),
        r matches Err(e) ==> (e is Oversized || e is Unsupported || e is UnresolvedBranch),
        r matches Ok(blocks) ==> {
            &&& (blocks@.len() == 0 <==> (instrs@.len() == 0 || n == 0))
            &&& (blocks@.len() > 0 ==> blocks@[0].spec_pc() == 0)
            &&& forall|b: int| 0 <= b < blocks@.len() ==> block_wf(blocks@[b]) && block_fresh(
                blocks@[b],
            )
            &&& forall|b: int|
                0 <= b < blocks@.len() - 1 ==> blocks@[b + 1].spec_pc() == blocks@[b].spec_pc()
                    + spans(blocks@[b].bytecodes_seq())
            &&& (blocks@.len() > 0 ==> blocks@[blocks@.len() - 1].spec_pc() + spans(
                blocks@[blocks@.len() - 1].bytecodes_seq(),
            ) == span_of(instrs@, instrs@.len() as int))
            &&& forall|b: int|
                0 <= b < blocks@.len() ==> ((#[trigger] blocks@[b]).spec_next() matches Some(q)
                    ==> q == blocks@[b].spec_pc() + spans(blocks@[b].bytecodes_seq()))
            &&& forall|b: int, j: int|
                0 <= b < blocks@.len() && 0 < j < (#[trigger] blocks@[b]).bytecodes_seq().len()
                    ==> !bc_is_jumpdest(#[trigger] blocks@[b].bytecodes_seq()[j])
            &&& forall|b: int|
                0 <= b < blocks@.len() ==> entry_attached(instrs@, analysis@, #[trigger] blocks@[b])
            &&& forall|b: int, k: int|
                0 <= b < blocks@.len() && 0 <= k < (#[trigger] blocks@[b]).states_seq().len()
                    ==> row_attached(
                    analysis@,
                    0,
                    instrs@.len() as int,
                    (#[trigger] blocks@[b].states_seq()[k]).models(),
                )
        },
{
    let offsets = match compute_offsets(instrs) {
        Ok(o) => o,
        Err(e) => {
            return Err(e);
        },
    };
    let mut blocks: Vec<Block> = Vec::new();
    if n == 0 {
        return Ok(blocks);
    }
    let mut index: usize = 0;
    let mut pc: usize = 0;
    while index < instrs.len()
        invariant
            n >= 1,
            forall|i2: int|
                0 <= i2 < index ==> translatable(#[trigger] instrs@[i2], analysis@[i2]),
            index <= instrs@.len(),
            offsets@.len() == instrs@.len() + 1,
            forall|k: int| 0 <= k <= instrs@.len() ==> offsets@[k] == span_of(instrs@, k),
            analysis@.len() == instrs@.len(),
            pc == offsets@[index as int],
            blocks@.len() == 0 <==> index == 0,
            blocks@.len() > 0 ==> blocks@[0].spec_pc() == 0,
            forall|b: int| 0 <= b < blocks@.len() ==> block_wf(blocks@[b]) && block_fresh(
                blocks@[b],
            ),
            forall|b: int|
                0 <= b < blocks@.len() - 1 ==> blocks@[b + 1].spec_pc() == blocks@[b].spec_pc()
                    + spans(blocks@[b].bytecodes_seq()),
            blocks@.len() > 0 ==> blocks@[blocks@.len() - 1].spec_pc() + spans(
                blocks@[blocks@.len() - 1].bytecodes_seq(),
            ) == pc,
            forall|b: int|
                0 <= b < blocks@.len() ==> ((#[trigger] blocks@[b]).spec_next() matches Some(q)
                    ==> q == blocks@[b].spec_pc() + spans(blocks@[b].bytecodes_seq())),
            forall|b: int, j: int|
                0 <= b < blocks@.len() && 0 < j < (#[trigger] blocks@[b]).bytecodes_seq().len()
                    ==> !bc_is_jumpdest(#[trigger] blocks@[b].bytecodes_seq()[j]),
            forall|b: int|
                0 <= b < blocks@.len() ==> entry_attached(
                    instrs@,
                    analysis@,
                    #[trigger] blocks@[b],
                ),
            forall|b: int, k: int|
                0 <= b < blocks@.len() && 0 <= k < (#[trigger] blocks@[b]).states_seq().len()
                    ==> row_attached(
                    analysis@,
                    0,
                    instrs@.len() as int,
                    (#[trigger] blocks@[b].states_seq()[k]).models(),
                ),
        decreases instrs@.len() - index,
    {
        let (pc2, i2, block) = match insns_to_block(
            n,
            pc,
            index,
            instrs,
            &offsets,
            analysis,
            policy,
        ) {
            Ok(p) => p,
            Err(e) => {
                return Err(e);
            },
        };
        let ghost pre_blocks = blocks@;
        let ghost pre_index = index;
        blocks.push(block);
        proof {
            assert(blocks@[pre_blocks.len() as int].spec_pc() == offsets@[pre_index as int]);
            assert(entry_attached(
                instrs@,
                analysis@,
                blocks@[pre_blocks.len() as int],
            )) by {
                assert(span_of(instrs@, pre_index as int)
                    == blocks@[pre_blocks.len() as int].spec_pc());
                assert(blocks@[pre_blocks.len() as int].states_seq()[0].models() == analysis@[
                    pre_index as int
                ]);
            }
            assert forall|b: int, k: int|
                0 <= b < blocks@.len() && 0 <= k < (#[trigger] blocks@[b]).states_seq().len()
                    implies row_attached(
                analysis@,
                0,
                instrs@.len() as int,
                (#[trigger] blocks@[b].states_seq()[k]).models(),
            ) by {
                if b < pre_blocks.len() {
                    assert(blocks@[b] == pre_blocks[b]);
                } else {
                    assert(row_attached(
                        analysis@,
                        pre_index as int,
                        i2 as int,
                        blocks@[b].states_seq()[k].models(),
                    ));
                    let w = choose|w: int|
                        pre_index <= w < i2 && blocks@[b].states_seq()[k].models() == analysis@[w];
                    assert(0 <= w < instrs@.len());
                }
            }
        }
        pc = pc2;
        index = i2;
    }
    Ok(blocks)
}


// ===================================================================
// Liveness analysis
// ===================================================================

/// The index of the block starting at the given byte offset, when one
/// does (preferring the later one if several start there).
pub open spec fn pc_lookup(blocks: Seq<Block>, pc: usize) -> Option<int>
    decreases blocks.len(),
{
    if blocks.len() == 0 {
        None
    } else if blocks.last().spec_pc() == pc {
        Some(blocks.len() - 1)
    } else {
        pc_lookup(blocks.drop_last(), pc)
    }
}

/// The entry liveness bits of the block starting at the given byte
/// offset; empty when no block starts there (control falling off the
/// end of the code needs nothing).
pub open spec fn entry_bits(blocks: Seq<Block>, pc: usize) -> Seq<bool> {
    match pc_lookup(blocks, pc) {
        Some(b) => if blocks[b].states_seq().len() > 0 {
            blocks[b].states_seq()[0].necessary_bits()
        } else {
            Seq::empty()
        },
        None => Seq::empty(),
    }
}

/// The merged entry liveness of every branch target.
pub open spec fn merged_of(blocks: Seq<Block>, targets: Seq<usize>) -> Seq<bool>
    decreases targets.len(),
{
    if targets.len() == 0 {
        Seq::empty()
    } else {
        sjoin(merged_of(blocks, targets.drop_last()), entry_bits(blocks, targets.last()))
    }
}

/// Pushing a liveness bit on a bit stack.
pub open spec fn spush(s: Seq<bool>, b: bool) -> Seq<bool> {
    seq![b] + s
}

/// Popping the top liveness bit.
pub open spec fn spop(s: Seq<bool>) -> Seq<bool> {
    if s.len() > 0 {
        s.subrange(1, s.len() as int)
    } else {
        s
    }
}

/// Setting one liveness bit, growing the stack as needed.
pub open spec fn sset(s: Seq<bool>, i: int, b: bool) -> Seq<bool> {
    Seq::new(
        if s.len() > i {
            s.len()
        } else {
            (i + 1) as nat
        },
        |j: int| if j == i {
            b
        } else {
            sbit(s, j)
        },
    )
}

/// Setting every slot of a witness set live.
pub open spec fn sets_true(s: Seq<bool>, deps: Seq<usize>) -> Seq<bool>
    decreases deps.len(),
{
    if deps.len() == 0 {
        s
    } else {
        sets_true(sset(s, deps[0] as int, true), deps.drop_first())
    }
}

/// Popping `m` liveness bits.
pub open spec fn sdropn(s: Seq<bool>, m: int) -> Seq<bool>
    decreases m,
{
    if m <= 0 {
        s
    } else {
        sdropn(spop(s), m - 1)
    }
}

/// Pushing `c` copies of a liveness bit.
pub open spec fn spushn(s: Seq<bool>, b: bool, c: int) -> Seq<bool>
    decreases c,
{
    if c <= 0 {
        s
    } else {
        spushn(spush(s, b), b, c - 1)
    }
}

/// Whether any of the top `m` slots is live.
pub open spec fn sor(s: Seq<bool>, m: int) -> bool {
    exists|j: int| 0 <= j < m && sbit(s, j)
}

/// The bits of a dropped stack are the incoming bits shifted.
pub proof fn lemma_sdropn(s: Seq<bool>, m: int)
    requires
        m >= 0,
    ensures
        sdropn(s, m).len() == if s.len() >= m {
            s.len() - m
        } else {
            0
        },
        forall|j: int| sbit(sdropn(s, m), j) == (j >= 0 && sbit(s, j + m)),
    decreases m,
{
    if m > 0 {
        lemma_sdropn(spop(s), m - 1);
        assert forall|j: int| sbit(sdropn(s, m), j) == (j >= 0 && sbit(s, j + m)) by {
            assert(sdropn(s, m) == sdropn(spop(s), m - 1));
        }
    }
}

/// Dropping one more is popping after dropping.
pub proof fn lemma_sdropn_pop(s: Seq<bool>, m: int)
    requires
        m >= 0,
    ensures
        sdropn(s, m + 1) == spop(sdropn(s, m)),
    decreases m,
{
    if m > 0 {
        lemma_sdropn_pop(spop(s), m - 1);
        assert(sdropn(s, m + 1) == sdropn(spop(s), m));
        assert(sdropn(s, m) == sdropn(spop(s), m - 1));
    } else {
        assert(sdropn(s, 1) == sdropn(spop(s), 0));
        assert(sdropn(s, 0) == s);
    }
}

/// Pushing the same bit repeatedly commutes with one more push.
pub proof fn lemma_spushn(s: Seq<bool>, b: bool, c: int)
    requires
        c >= 0,
    ensures
        spushn(spush(s, b), b, c) == spush(spushn(s, b, c), b),
    decreases c,
{
    if c > 0 {
        lemma_spushn(spush(s, b), b, c - 1);
    }
}

/// The backwards transfer of a verbatim instruction: `DUP`, `SWAP`
/// and the memory stores are special; everything else pops what the
/// instruction produced (combining liveness with OR) and pushes that
/// onto what it consumed.
pub open spec fn tau_unit(insn: Instr, after: Seq<bool>) -> Seq<bool> {
    match insn {
        Instr::Dup(nn) => spop(sset(after, nn as int, sbit(after, 0) || sbit(after, nn as int))),
        Instr::Swap(nn) => sset(sset(after, 0, sbit(after, nn as int)), nn as int, sbit(after, 0)),
        Instr::Other { op, .. } => if op == OP_MSTORE || op == OP_MSTORE8 {
            spush(spush(after, false), true)
        } else {
            spushn(
                sdropn(after, insn.spec_produces()),
                sor(after, insn.spec_produces()),
                insn.spec_operands(),
            )
        },
        _ => spushn(
            sdropn(after, insn.spec_produces()),
            sor(after, insn.spec_produces()),
            insn.spec_operands(),
        ),
    }
}

/// The backwards transfer function of the liveness analysis: from the
/// liveness after a bytecode to the liveness before it.
pub open spec fn tau(blocks: Seq<Block>, bc: Bytecode, after: Seq<bool>) -> Seq<bool> {
    match bc {
        Bytecode::Comment(_) => after,
        Bytecode::Assert(deps, _) => sets_true(after, deps@),
        Bytecode::Mask(_) => spush(spush(spop(after), sbit(after, 0)), true),
        Bytecode::JumpI(ts) => spush(spush(sjoin(after, merged_of(blocks, ts@)), false), true),
        Bytecode::Jump(ts) => spush(sjoin(after, merged_of(blocks, ts@)), true),
        Bytecode::Unit(insn) => tau_unit(insn, after),
    }
}

/// Whether a bytecode's branch targets all start a block.
pub open spec fn bc_targets_found(blocks: Seq<Block>, bc: Bytecode) -> bool {
    match bc {
        Bytecode::Jump(ts) => forall|k: int|
            0 <= k < ts@.len() ==> pc_lookup(blocks, #[trigger] ts@[k]) is Some,
        Bytecode::JumpI(ts) => forall|k: int|
            0 <= k < ts@.len() ==> pc_lookup(blocks, #[trigger] ts@[k]) is Some,
        _ => true,
    }
}

/// Whether a bytecode branches to the given offset.
pub open spec fn bc_has_target(bc: Bytecode, p: usize) -> bool {
    match bc {
        Bytecode::Jump(ts) => ts@.contains(p),
        Bytecode::JumpI(ts) => ts@.contains(p),
        _ => false,
    }
}

/// Whether some stored branch targets the given offset while no block
/// starts there — the one condition on which the liveness analysis
/// reports an invariant violation.
pub open spec fn missing_branch_target(blocks: Seq<Block>, p: usize) -> bool {
    pc_lookup(blocks, p) is None && exists|i: int, j: int|
        0 <= i < blocks.len() && 0 <= j < blocks[i].bytecodes_seq().len() && bc_has_target(
            #[trigger] blocks[i].bytecodes_seq()[j],
            p,
        )
}

/// Every witness index of an injected assert is representable.
pub open spec fn bc_uses_small(bc: Bytecode) -> bool {
    match bc {
        Bytecode::Assert(u, _) => forall|k: int| 0 <= k < u@.len() ==> u@[k] < usize::MAX,
        _ => true,
    }
}

/// Find the block starting at the given byte offset, preferring the
/// later one if several start there.
fn find_block(blocks: &Vec<Block>, pc: usize) -> (r: Option<usize>)
    ensures
        r is Some <==> pc_lookup(blocks@, pc) is Some,
        r matches Some(b) ==> b < blocks@.len() && Some(b as int) == pc_lookup(blocks@, pc),
    {
    let mut b: usize = blocks.len();
    proof {
        assert(blocks@.take(blocks@.len() as int) =~= blocks@);
    }
    while b > 0
        invariant
            b <= blocks@.len(),
            pc_lookup(blocks@, pc) == pc_lookup(blocks@.take(b as int), pc),
        decreases b,
    {
        proof {
            assert(blocks@.take(b as int).last() == blocks@[b - 1]);
            assert(blocks@.take(b as int).drop_last() =~= blocks@.take(b - 1));
        }
        if blocks[b - 1].pc() == pc {
            return Some(b - 1);
        }
        b -= 1;
    }
    proof {
        assert(blocks@.take(0).len() == 0);
    }
    None
}

/// Merge the entry liveness of every branch target.  A target that is
/// not the start of any block is an invariant violation.
fn merge_target_states(targets: &Vec<usize>, blocks: &Vec<Block>) -> (r: Result<
    NecessaryState,
    Error,
>)
    requires
        forall|b: int| 0 <= b < blocks@.len() ==> (#[trigger] blocks@[b]).states_seq().len() > 0,
    ensures
        r matches Ok(st) ==> st@ == merged_of(blocks@, targets@),
        r is Ok <==> (forall|k: int|
            0 <= k < targets@.len() ==> pc_lookup(blocks@, #[trigger] targets@[k]) is Some),
        r matches Err(e) ==> (e matches Error::MissingBlock(p) && targets@.contains(p)
            && pc_lookup(blocks@, p) is None),
{
    let mut state = NecessaryState::new();
    proof {
        assert(state@ =~= merged_of(blocks@, targets@.take(0)));
    }
    let mut k: usize = 0;
    while k < targets.len()
        invariant
            forall|b: int| 0 <= b < blocks@.len() ==> (#[trigger] blocks@[b]).states_seq().len()
                > 0,
            k <= targets@.len(),
            forall|j: int| 0 <= j < k ==> pc_lookup(blocks@, #[trigger] targets@[j]) is Some,
            state@ == merged_of(blocks@, targets@.take(k as int)),
        decreases targets@.len() - k,
    {
        let pc = targets[k];
        let b = match find_block(blocks, pc) {
            Some(b) => b,
            None => {
                proof {
                    assert(targets@[k as int] == pc);
                    assert(targets@.contains(pc));
                }
                return Err(Error::MissingBlock(pc));
            },
        };
        let entry = blocks[b].state(0).necessary_dup();
        proof {
            assert(entry@ == entry_bits(blocks@, pc));
        }
        state.join(&entry);
        proof {
            assert(targets@.take(k + 1).drop_last() =~= targets@.take(k as int));
            assert(targets@.take(k + 1).last() == targets@[k as int]);
        }
        k += 1;
    }
    proof {
        assert(targets@.take(targets@.len() as int) =~= targets@);
    }
    Ok(state)
}

/// The witness-set update applied to the first `k` dependencies.
pub open spec fn sets_true_upto(s: Seq<bool>, deps: Seq<usize>, k: int) -> Seq<bool>
    decreases k,
{
    if k <= 0 {
        s
    } else {
        sset(sets_true_upto(s, deps, k - 1), deps[k - 1] as int, true)
    }
}

/// Unrolling the front update into the prefix fold.
proof fn lemma_sets_true_shift(s: Seq<bool>, deps: Seq<usize>, k: int)
    requires
        deps.len() > 0,
        0 <= k <= deps.drop_first().len(),
    ensures
        sets_true_upto(sset(s, deps[0] as int, true), deps.drop_first(), k) == sets_true_upto(
            s,
            deps,
            k + 1,
        ),
    decreases k,
{
    let s1 = sset(s, deps[0] as int, true);
    let rest = deps.drop_first();
    if k > 0 {
        lemma_sets_true_shift(s, deps, k - 1);
        assert(rest[k - 1] == deps[k]);
        assert(sets_true_upto(s1, rest, k) == sset(sets_true_upto(s1, rest, k - 1), rest[k - 1] as int, true));
        assert(sets_true_upto(s, deps, k + 1) == sset(sets_true_upto(s, deps, k), deps[k] as int, true));
    } else {
        assert(sets_true_upto(s1, rest, 0) == s1);
        assert(sets_true_upto(s, deps, 1) == sset(sets_true_upto(s, deps, 0), deps[0] as int, true));
    }
}

/// The recursive and iterative witness-set updates agree.
pub proof fn lemma_sets_true_eq(s: Seq<bool>, deps: Seq<usize>)
    ensures
        sets_true(s, deps) == sets_true_upto(s, deps, deps.len() as int),
    decreases deps.len(),
{
    if deps.len() > 0 {
        lemma_sets_true_eq(sset(s, deps[0] as int, true), deps.drop_first());
        lemma_sets_true_shift(s, deps, deps.len() - 1);
    }
}

/// The transfer of a verbatim instruction.
#[verifier::rlimit(60)]
fn transfer_unit(insn: &Instr, state: NecessaryState) -> (r: NecessaryState)
    ensures
        r@ == tau_unit(*insn, state@),
{
    let ghost after = state@;
    let mut st = state;
    match insn {
        Instr::Dup(nn) => {
            let n = *nn as usize;
            let t0 = st.get(0);
            let tn = st.get(n);
            let t = t0 || tn;
            st.set(n, t);
            let _ = st.pop();
            proof {
                assert(st@ =~= spop(sset(after, n as int, sbit(after, 0) || sbit(
                    after,
                    n as int,
                ))));
            }
            st
        },
        Instr::Swap(nn) => {
            let n = *nn as usize;
            let t0 = st.get(0);
            let tn = st.get(n);
            st.set(0, tn);
            st.set(n, t0);
            proof {
                assert(st@ =~= sset(sset(after, 0, sbit(after, n as int)), n as int, sbit(
                    after,
                    0,
                )));
            }
            st
        },
        Instr::Other { op, pops: _, fallthru: _ } if *op == OP_MSTORE || *op == OP_MSTORE8 => {
            st.push(false);
            st.push(true);
            proof {
                assert(st@ =~= spush(spush(after, false), true));
            }
            st
        },
        _ => {
            let m = insn.produces();
            let nops = insn.operands();
            let mut used = false;
            let mut k: usize = 0;
            while k < m
                invariant
                    k <= m,
                    m == insn.spec_produces(),
                    st@ == sdropn(after, k as int),
                    used == sor(after, k as int),
                decreases m - k,
            {
                proof {
                    lemma_sdropn(after, k as int);
                }
                let b = st.pop();
                used = used || b;
                proof {
                    assert(st@ =~= spop(sdropn(after, k as int)));
                    lemma_sdropn_pop(after, k as int);
                    assert(b == sbit(sdropn(after, k as int), 0));
                    assert(sbit(sdropn(after, k as int), 0) == sbit(after, k as int));
                    assert(used == sor(after, k + 1)) by {
                        if used && !sor(after, k + 1) {
                            assert(false);
                        }
                        if !used && sor(after, k + 1) {
                            let j = choose|j: int| 0 <= j < k + 1 && sbit(after, j);
                            assert(j == k);
                        }
                    }
                }
                k += 1;
            }
            let ghost dropped = st@;
            let mut k2: usize = 0;
            while k2 < nops
                invariant
                    k2 <= nops,
                    nops == insn.spec_operands(),
                    st@ == spushn(dropped, used, k2 as int),
                decreases nops - k2,
            {
                st.push(used);
                proof {
                    lemma_spushn(dropped, used, k2 as int);
                    assert(st@ =~= spush(spushn(dropped, used, k2 as int), used));
                }
                k2 += 1;
            }
            st
        },
    }
}

/// Apply the backwards transfer of one bytecode to the liveness that
/// holds after it.
fn transfer_bytecode(bc: &Bytecode, state: NecessaryState, blocks: &Vec<Block>) -> (r: Result<
    NecessaryState,
    Error,
>)
    requires
        forall|b: int| 0 <= b < blocks@.len() ==> (#[trigger] blocks@[b]).states_seq().len() > 0,
        bc_uses_small(*bc),
    ensures
        r matches Ok(ns) ==> ns@ == tau(blocks@, *bc, state@),
        r is Ok <==> bc_targets_found(blocks@, *bc),
        r matches Err(e) ==> (e matches Error::MissingBlock(p) && bc_has_target(*bc, p)
            && pc_lookup(blocks@, p) is None),
{
    let ghost after = state@;
    let mut st = state;
    match bc {
        Bytecode::Comment(_) => Ok(st),
        Bytecode::Assert(deps, _) => {
            let mut k: usize = 0;
            while k < deps.len()
                invariant
                    forall|j: int| 0 <= j < deps@.len() ==> deps@[j] < usize::MAX,
                    k <= deps@.len(),
                    st@ == sets_true_upto(after, deps@, k as int),
                decreases deps@.len() - k,
            {
                let d = deps[k];
                st.set(d, true);
                proof {
                    assert(st@ =~= sets_true_upto(after, deps@, k + 1));
                }
                k += 1;
            }
            proof {
                lemma_sets_true_eq(after, deps@);
            }
            Ok(st)
        },
        Bytecode::Unit(insn) => Ok(transfer_unit(insn, st)),
        Bytecode::Mask(_) => {
            let used = st.pop();
            st.push(used);
            st.push(true);
            proof {
                assert(st@ =~= spush(spush(spop(after), sbit(after, 0)), true));
            }
            Ok(st)
        },
        Bytecode::JumpI(ts) => {
            let merged = match merge_target_states(ts, blocks) {
                Ok(m) => m,
                Err(e) => {
                    return Err(e);
                },
            };
            st.join(&merged);
            st.push(false);
            st.push(true);
            proof {
                assert(st@ =~= spush(spush(sjoin(after, merged_of(blocks@, ts@)), false), true));
            }
            Ok(st)
        },
        Bytecode::Jump(ts) => {
            let merged = match merge_target_states(ts, blocks) {
                Ok(m) => m,
                Err(e) => {
                    return Err(e);
                },
            };
            st.join(&merged);
            st.push(true);
            proof {
                assert(st@ =~= spush(sjoin(after, merged_of(blocks@, ts@)), true));
            }
            Ok(st)
        },
    }
}

/// The seed liveness for walking a block backwards: nothing when
/// control stops here, and the fall-through successor's entry
/// liveness otherwise.
pub open spec fn seed_bits(blocks: Seq<Block>, i: int) -> Seq<bool> {
    match blocks[i].spec_next() {
        None => Seq::empty(),
        Some(pc) => entry_bits(blocks, pc),
    }
}

/// The liveness holding after position `j` of block `i`: the next
/// position's recorded liveness, or the seed at the block's end.
pub open spec fn after_bits(blocks: Seq<Block>, i: int, j: int) -> Seq<bool> {
    if j + 1 < blocks[i].bytecodes_seq().len() {
        blocks[i].states_seq()[j + 1].necessary_bits()
    } else {
        seed_bits(blocks, i)
    }
}

/// Every block is structurally sound with one state record per
/// bytecode.
pub open spec fn all_blocks_wf(blocks: Seq<Block>) -> bool {
    forall|b: int| 0 <= b < blocks.len() ==> block_wf(#[trigger] blocks[b])
}

/// The recorded liveness is a post-fixed point of the transfer
/// function: at every position of every block, what the transfer
/// requires is already recorded.
pub open spec fn fixpoint_property(blocks: Seq<Block>) -> bool {
    forall|i: int, j: int|
        0 <= i < blocks.len() && 0 <= j < blocks[i].bytecodes_seq().len() ==> bits_leq(
            tau(blocks, blocks[i].bytecodes_seq()[j], after_bits(blocks, i, j)),
            #[trigger] blocks[i].states_seq()[j].necessary_bits(),
        )
}

/// Two block sequences with the same structure and abstract states
/// (their liveness bits may differ).
pub open spec fn same_shape(a: Seq<Block>, b: Seq<Block>) -> bool {
    &&& a.len() == b.len()
    &&& forall|i: int| 0 <= i < a.len() ==> {
        &&& (#[trigger] b[i]).spec_pc() == a[i].spec_pc()
        &&& b[i].spec_next() == a[i].spec_next()
        &&& b[i].bytecodes_seq() == a[i].bytecodes_seq()
        &&& b[i].states_seq().len() == a[i].states_seq().len()
        &&& forall|j: int|
            0 <= j < a[i].states_seq().len() ==> (#[trigger] b[i].states_seq()[j]).models()
                == a[i].states_seq()[j].models()
    }
}

/// Shape equality preserves block lookup by offset.
pub proof fn lemma_same_shape_lookup(a: Seq<Block>, b: Seq<Block>, p: usize)
    requires
        same_shape(a, b),
    ensures
        pc_lookup(a, p) == pc_lookup(b, p),
    decreases a.len(),
{
    if a.len() > 0 {
        assert(b[a.len() - 1].spec_pc() == a[a.len() - 1].spec_pc());
        assert(same_shape(a.drop_last(), b.drop_last())) by {
            assert forall|i: int| 0 <= i < a.drop_last().len() implies {
                &&& (#[trigger] b.drop_last()[i]).spec_pc() == a.drop_last()[i].spec_pc()
                &&& b.drop_last()[i].spec_next() == a.drop_last()[i].spec_next()
                &&& b.drop_last()[i].bytecodes_seq() == a.drop_last()[i].bytecodes_seq()
                &&& b.drop_last()[i].states_seq().len() == a.drop_last()[i].states_seq().len()
                &&& forall|j: int|
                    0 <= j < a.drop_last()[i].states_seq().len() ==> (#[trigger] b.drop_last(
                    )[i].states_seq()[j]).models() == a.drop_last()[i].states_seq()[j].models()
            } by {
                assert(a.drop_last()[i] == a[i]);
                assert(b.drop_last()[i] == b[i]);
            }
        }
        lemma_same_shape_lookup(a.drop_last(), b.drop_last(), p);
    }
}

/// Shape equality preserves the missing-target condition.
pub proof fn lemma_missing_target_same_shape(a: Seq<Block>, b: Seq<Block>, p: usize)
    requires
        same_shape(a, b),
        missing_branch_target(b, p),
    ensures
        missing_branch_target(a, p),
{
    lemma_same_shape_lookup(a, b, p);
    let (i, j) = choose|i: int, j: int|
        0 <= i < b.len() && 0 <= j < b[i].bytecodes_seq().len() && bc_has_target(
            #[trigger] b[i].bytecodes_seq()[j],
            p,
        );
    assert(a[i].bytecodes_seq() == b[i].bytecodes_seq());
    assert(bc_has_target(a[i].bytecodes_seq()[j], p));
}

/// Shape equality is transitive.
pub proof fn lemma_same_shape_trans(a: Seq<Block>, b: Seq<Block>, c: Seq<Block>)
    requires
        same_shape(a, b),
        same_shape(b, c),
    ensures
        same_shape(a, c),
{
}

/// The depth of a liveness stack.
impl NecessaryState {
    pub fn depth(&self) -> (r: usize)
        ensures
            r == self@.len(),
    {
        self.stack.len()
    }
}

/// Whether every live bit of `a` is live in `b`.
fn bits_leq_exec(a: &NecessaryState, b: &NecessaryState) -> (r: bool)
    ensures
        r == bits_leq(a@, b@),
{
    let n = a.depth();
    let mut j: usize = 0;
    while j < n
        invariant
            n == a@.len(),
            j <= n,
            forall|k: int| 0 <= k < j ==> (sbit(a@, k) ==> sbit(b@, k)),
        decreases n - j,
    {
        if a.get(j) && !b.get(j) {
            assert(sbit(a@, j as int) && !sbit(b@, j as int));
            return false;
        }
        j += 1;
    }
    proof {
        assert forall|k: int| sbit(a@, k) implies sbit(b@, k) by {
            assert(0 <= k < a@.len());
        }
    }
    true
}

/// One backwards sweep of the liveness analysis over every block.
/// Returns whether any recorded liveness changed.
fn liveness_sweep(blocks: &mut Vec<Block>) -> (r: Result<bool, Error>)
    requires
        all_blocks_wf(old(blocks)@),
    ensures
        r is Ok ==> same_shape(old(blocks)@, final(blocks)@) && all_blocks_wf(final(blocks)@),
        r matches Err(e) ==> (e matches Error::MissingBlock(p) && missing_branch_target(
            old(blocks)@,
            p,
        )),
{
    let ghost orig = blocks@;
    let n = blocks.len();
    let mut changed = false;
    let mut ii: usize = n;
    while ii > 0
        invariant
            orig == old(blocks)@,
            n == blocks@.len(),
            ii <= n,
            all_blocks_wf(blocks@),
            same_shape(orig, blocks@),
        decreases ii,
    {
        let i = ii - 1;
        // Seed from the fall-through successor's entry liveness; when
        // the successor offset starts no block, control falls off the
        // end of the code and needs nothing.
        let mut state = match blocks[i].next() {
            None => NecessaryState::new(),
            Some(pc) => {
                match find_block(blocks, pc) {
                    Some(b) => blocks[b].state(0).necessary_dup(),
                    None => NecessaryState::new(),
                }
            },
        };
        let m = blocks[i].bytecodes().len();
        let mut jj: usize = m;
        while jj > 0
            invariant
                orig == old(blocks)@,
                n == blocks@.len(),
                i < n,
                m == blocks@[i as int].bytecodes_seq().len(),
                jj <= m,
                all_blocks_wf(blocks@),
                same_shape(orig, blocks@),
            decreases jj,
        {
            let j = jj - 1;
            let bcr = blocks[i].bytecode_at(j);
            proof {
                assert(*bcr == blocks@[i as int].bytecodes_seq()[j as int]);
            }
            let t = match transfer_bytecode(bcr, state, blocks) {
                Ok(t) => t,
                Err(e) => {
                    proof {
                        let p = e->MissingBlock_0;
                        assert(bc_has_target(*bcr, p));
                        assert(bc_has_target(blocks@[i as int].bytecodes_seq()[j as int], p));
                        assert(missing_branch_target(blocks@, p));
                        lemma_missing_target_same_shape(orig, blocks@, p);
                    }
                    return Err(e);
                },
            };
            state = t;
            let ghost pre = blocks@;
            let blk = &mut blocks[i];
            let ch = blk.join_necessary_at(j, &state);
            if ch {
                changed = true;
            }
            proof {
                assert(same_shape(pre, blocks@));
                lemma_same_shape_trans(orig, pre, blocks@);
                assert forall|b: int| 0 <= b < blocks@.len() implies block_wf(
                    #[trigger] blocks@[b],
                ) by {
                    assert(block_wf(pre[b]));
                    if b == i {
                    } else {
                        assert(blocks@[b] == pre[b]);
                    }
                }
            }
            jj -= 1;
        }
        ii -= 1;
    }
    Ok(changed)
}

/// Check that the recorded liveness is a post-fixed point of the
/// transfer function at every position.
fn check_fixpoint(blocks: &Vec<Block>) -> (r: Result<bool, Error>)
    requires
        all_blocks_wf(blocks@),
    ensures
        r == Ok::<bool, Error>(true) ==> fixpoint_property(blocks@),
        r matches Err(e) ==> (e matches Error::MissingBlock(p) && missing_branch_target(
            blocks@,
            p,
        )),
{
    let n = blocks.len();
    let mut i: usize = 0;
    while i < n
        invariant
            n == blocks@.len(),
            all_blocks_wf(blocks@),
            forall|i2: int, j2: int|
                0 <= i2 < i && 0 <= j2 < blocks@[i2].bytecodes_seq().len() ==> bits_leq(
                    tau(blocks@, blocks@[i2].bytecodes_seq()[j2], after_bits(blocks@, i2, j2)),
                    #[trigger] blocks@[i2].states_seq()[j2].necessary_bits(),
                ),
        decreases n - i,
    {
        let m = blocks[i].bytecodes().len();
        let mut j: usize = 0;
        while j < m
            invariant
                n == blocks@.len(),
                i < n,
                m == blocks@[i as int].bytecodes_seq().len(),
                j <= m,
                all_blocks_wf(blocks@),
                forall|i2: int, j2: int|
                    0 <= i2 < i && 0 <= j2 < blocks@[i2].bytecodes_seq().len() ==> bits_leq(
                        tau(blocks@, blocks@[i2].bytecodes_seq()[j2], after_bits(blocks@, i2, j2)),
                        #[trigger] blocks@[i2].states_seq()[j2].necessary_bits(),
                    ),
                forall|j2: int|
                    0 <= j2 < j ==> bits_leq(
                        tau(
                            blocks@,
                            blocks@[i as int].bytecodes_seq()[j2],
                            after_bits(blocks@, i as int, j2),
                        ),
                        #[trigger] blocks@[i as int].states_seq()[j2].necessary_bits(),
                    ),
            decreases m - j,
        {
            let after: NecessaryState;
            if j + 1 < m {
                after = blocks[i].state(j + 1).necessary_dup();
            } else {
                after = match blocks[i].next() {
                    None => NecessaryState::new(),
                    Some(pc) => {
                        match find_block(blocks, pc) {
                            Some(b) => blocks[b].state(0).necessary_dup(),
                            None => NecessaryState::new(),
                        }
                    },
                };
            }
            proof {
                assert(after@ == after_bits(blocks@, i as int, j as int));
            }
            let bcr = blocks[i].bytecode_at(j);
            proof {
                assert(*bcr == blocks@[i as int].bytecodes_seq()[j as int]);
            }
            let t = match transfer_bytecode(bcr, after, blocks) {
                Ok(t) => t,
                Err(e) => {
                    proof {
                        let p = e->MissingBlock_0;
                        assert(bc_has_target(*bcr, p));
                        assert(bc_has_target(blocks@[i as int].bytecodes_seq()[j as int], p));
                        assert(missing_branch_target(blocks@, p));
                    }
                    return Err(e);
                },
            };
            let stored = blocks[i].state(j).necessary_dup();
            if !bits_leq_exec(&t, &stored) {
                return Ok(false);
            }
            j += 1;
        }
        i += 1;
    }
    Ok(true)
}

/// Run the backwards liveness analysis to a fixed point, bounded by a
/// safety counter, and verify the result.  On success the recorded
/// liveness of every position is a post-fixed point of the transfer
/// function; failing to stabilise is a fatal bug, not an input error.
pub fn determine_necessary_stateinfo(blocks: &mut Vec<Block>) -> (r: Result<(), Error>)
    requires
        all_blocks_wf(old(blocks)@),
    ensures
        r is Ok ==> {
            &&& same_shape(old(blocks)@, final(blocks)@)
            &&& all_blocks_wf(final(blocks)@)
            &&& fixpoint_property(final(blocks)@)
        },
        r matches Err(e) ==> (e is FixpointOverrun || (e matches Error::MissingBlock(p)
            && missing_branch_target(old(blocks)@, p))),
{
    let ghost orig = blocks@;
    let mut changed = true;
    let mut counter: usize = 100;
    while changed && counter > 0
        invariant
            orig == old(blocks)@,
            all_blocks_wf(blocks@),
            same_shape(orig, blocks@),
        decreases counter,
    {
        let ghost pre = blocks@;
        changed = match liveness_sweep(blocks) {
            Ok(c) => c,
            Err(e) => {
                proof {
                    if e is MissingBlock {
                        lemma_missing_target_same_shape(orig, pre, e->MissingBlock_0);
                    }
                }
                return Err(e);
            },
        };
        counter -= 1;
    }
    if changed {
        return Err(Error::FixpointOverrun);
    }
    let ok = match check_fixpoint(blocks) {
        Ok(ok) => ok,
        Err(e) => {
            proof {
                if e is MissingBlock {
                    lemma_missing_target_same_shape(orig, blocks@, e->MissingBlock_0);
                }
            }
            return Err(e);
        },
    };
    if !ok {
        return Err(Error::FixpointOverrun);
    }
    Ok(())
}

// ===================================================================
// Block sequences
// ===================================================================

/// The blocks cover the stream contiguously: the first starts at
/// offset zero, each next block starts where the previous one ends,
/// and every recorded fall-through successor is the offset one past
/// its block.
pub open spec fn contiguous_cover(blocks: Seq<Block>) -> bool {
    &&& (blocks.len() > 0 ==> blocks[0].spec_pc() == 0)
    &&& forall|b: int|
        0 <= b < blocks.len() - 1 ==> (#[trigger] blocks[b + 1]).spec_pc() == blocks[b].spec_pc()
            + spans(blocks[b].bytecodes_seq())
    &&& forall|b: int|
        0 <= b < blocks.len() ==> ((#[trigger] blocks[b]).spec_next() matches Some(q) ==> q
            == blocks[b].spec_pc() + spans(blocks[b].bytecodes_seq()))
}

/// Shape equality preserves contiguous coverage.
pub proof fn lemma_shape_preserves_cover(a: Seq<Block>, b: Seq<Block>)
    requires
        same_shape(a, b),
        contiguous_cover(a),
    ensures
        contiguous_cover(b),
{
}

/// Every position of every block is pruned to its liveness bits.
pub open spec fn pruned_blocks(a: Seq<Block>, b: Seq<Block>) -> bool {
    &&& a.len() == b.len()
    &&& forall|i: int| 0 <= i < a.len() ==> {
        &&& (#[trigger] b[i]).spec_pc() == a[i].spec_pc()
        &&& b[i].spec_next() == a[i].spec_next()
        &&& b[i].bytecodes_seq() == a[i].bytecodes_seq()
        &&& b[i].states_seq().len() == a[i].states_seq().len()
        &&& forall|j: int|
            0 <= j < a[i].states_seq().len() ==> pruned_state(
                a[i].states_seq()[j],
                #[trigger] b[i].states_seq()[j],
            )
    }
}

/// An ordered sequence of super-blocks for one code section.
#[derive(Debug)]
pub struct BlockSequence {
    blocks: Vec<Block>,
}

impl BlockSequence {
    /// The blocks of this sequence.
    pub closed spec fn blocks_view(&self) -> Seq<Block> {
        self.blocks@
    }

    /// Decompose an instruction sequence into super-blocks: run the
    /// abstract trace, cut the stream at size budget, jump
    /// destinations and terminators, and compute the per-position
    /// liveness to a verified fixed point.  The boolean reports
    /// whether the abstract trace completed within its limit.
    /// Success depends on the trace's output, which nothing
    /// constrains; the exact success condition over the modelled
    /// stream and states is the contract of `insns_to_blocks`, which
    /// does the work.
    pub fn from_insns(
        n: usize,
        insns: &Vec<evmil::bytecode::Instruction>,
        precheck: PrecheckPolicy,
        limit: usize,
    ) -> (r: Result<(BlockSequence, bool), Error>)
        ensures
            r matches Ok(p) ==> {
                &&& all_blocks_wf(p.0.blocks_view())
                &&& contiguous_cover(p.0.blocks_view())
                &&& fixpoint_property(p.0.blocks_view())
                &&& (p.0.blocks_view().len() == 0 <==> (n == 0 || insns@.len() == 0))
                &&& forall|b: int, j: int|
                    0 <= b < p.0.blocks_view().len() && 0 < j < (
                    #[trigger] p.0.blocks_view()[b]).bytecodes_seq().len() ==> !bc_is_jumpdest(
                        #[trigger] p.0.blocks_view()[b].bytecodes_seq()[j],
                    )
            },
            r matches Err(e) ==> (e is Oversized || e is Unsupported || e is UnresolvedBranch
                || e is MissingBlock || e is FixpointOverrun),
    {
        let instrs = crate::bridge::convert_instructions(insns);
        let (analysis, complete) = BytecodeAnalysis::from_insns(insns, limit);
        let mut blocks = match insns_to_blocks(n, &instrs, &analysis, precheck) {
            Ok(b) => b,
            Err(e) => {
                return Err(e);
            },
        };
        let ghost built = blocks@;
        match determine_necessary_stateinfo(&mut blocks) {
            Ok(()) => {},
            Err(e) => {
                return Err(e);
            },
        }
        proof {
            lemma_shape_preserves_cover(built, blocks@);
        }
        Ok((BlockSequence { blocks }, complete))
    }

    /// The blocks as a slice.
    pub fn as_ref(&self) -> (r: &[Block])
        ensures
            r@ == self.blocks_view(),
    {
        self.blocks.as_slice()
    }

    /// Iterate over the blocks.
    pub fn iter(&self) -> (r: core::slice::Iter<'_, Block>)
        ensures
            vstd::std_specs::slice::into_iter_elts(r) == self.blocks_view(),
    {
        self.blocks.as_slice().iter()
    }

    /// The blocks as an owned vector.
    pub fn to_vec(self) -> (r: Vec<Block>)
        ensures
            r@ == self.blocks_view(),
    {
        self.blocks
    }

    /// Prune every block to the facts its liveness bits justify.
    pub fn minimise(&mut self)
        ensures
            pruned_blocks(old(self).blocks_view(), final(self).blocks_view()),
    {
        let mut i: usize = 0;
        while i < self.blocks.len()
            invariant
                i <= self.blocks@.len(),
                self.blocks@.len() == old(self).blocks@.len(),
                forall|k: int| i <= k < self.blocks@.len() ==> self.blocks@[k]
                    == old(self).blocks@[k],
                forall|k: int| 0 <= k < i ==> {
                    &&& (#[trigger] self.blocks@[k]).spec_pc() == old(self).blocks@[k].spec_pc()
                    &&& self.blocks@[k].spec_next() == old(self).blocks@[k].spec_next()
                    &&& self.blocks@[k].bytecodes_seq() == old(self).blocks@[k].bytecodes_seq()
                    &&& self.blocks@[k].states_seq().len() == old(
                        self,
                    ).blocks@[k].states_seq().len()
                    &&& forall|j: int|
                        0 <= j < old(self).blocks@[k].states_seq().len() ==> pruned_state(
                            old(self).blocks@[k].states_seq()[j],
                            #[trigger] self.blocks@[k].states_seq()[j],
                        )
                },
            decreases self.blocks@.len() - i,
        {
            let blk = &mut self.blocks[i];
            blk.minimise();
            i += 1;
        }
    }
}

} // verus!
