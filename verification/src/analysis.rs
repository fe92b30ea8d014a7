//! The abstract domain: a snapshot of what is known about the EVM at a
//! program point.  A state holds the free-memory pointer, if constant,
//! and one optional word per stack slot (index 0 is the top of the
//! stack).  States support `join` (the point-wise constant-propagation
//! meet, truncating to the shorter frame) and `cancel` (clearing every
//! slot both states know, to display only what differs from a
//! consensus).

use vstd::prelude::*;
use vstd::assert_by_contradiction;
use crate::word::W256;
use crate::errors::Error;
use crate::instr::Instr;
use crate::sorted::{insert_unique_usize, insert_unique_word, strictly_increasing,
    strictly_increasing_words};

verus! {

/// The mathematical model of an abstract state.
#[verifier::ext_equal]
pub struct AbsModel {
    pub fmp: Option<usize>,
    pub stack: Seq<Option<W256>>,
}

/// An abstract representation of the EVM at a given point in time:
/// the known stack slots and the free memory pointer.
#[derive(Debug)]
pub struct AbstractState {
    // The free memory pointer on entry, if its value is known.
    freemem_ptr: Option<usize>,
    // Known stack slots on entry; nothing is known about `None` slots.
    stack_frame: Vec<Option<W256>>,
}

impl View for AbstractState {
    type V = AbsModel;

    closed spec fn view(&self) -> AbsModel {
        AbsModel { fmp: self.freemem_ptr, stack: self.stack_frame@ }
    }
}

/// The point-wise join of two slots: a known value survives only when
/// both sides know the same value.
pub open spec fn join_opt<T>(a: Option<T>, b: Option<T>) -> Option<T> {
    match (a, b) {
        (Some(x), Some(y)) => if x == y {
            Some(x)
        } else {
            None
        },
        _ => None,
    }
}

/// The join of two stack frames: truncate to the shorter frame, then
/// join slot by slot.
pub open spec fn join_stacks(a: Seq<Option<W256>>, b: Seq<Option<W256>>) -> Seq<Option<W256>> {
    Seq::new(
        if a.len() <= b.len() {
            a.len()
        } else {
            b.len()
        },
        |i: int| join_opt(a[i], b[i]),
    )
}

/// The join of two abstract states.
pub open spec fn join_model(a: AbsModel, b: AbsModel) -> AbsModel {
    AbsModel { fmp: join_opt(a.fmp, b.fmp), stack: join_stacks(a.stack, b.stack) }
}

/// `a` is at most `b` in the point-wise order: `b` knows nothing that
/// `a` does not also know (`None` is above every `Some`, and a shorter
/// frame is above a longer one).
pub open spec fn opt_leq<T>(a: Option<T>, b: Option<T>) -> bool {
    b is None || a == b
}

/// The point-wise information order on abstract states: `a ⊑ b` when
/// `b` approximates `a`.
pub open spec fn state_leq(a: AbsModel, b: AbsModel) -> bool {
    &&& b.stack.len() <= a.stack.len()
    &&& forall|i: int| 0 <= i < b.stack.len() ==> opt_leq(a.stack[i], b.stack[i])
    &&& opt_leq(a.fmp, b.fmp)
}

/// Join idempotence: joining a state with itself leaves it unchanged.
pub proof fn lemma_join_idempotent(a: AbsModel)
    ensures
        join_model(a, a) == a,
{
    assert(join_stacks(a.stack, a.stack) =~= a.stack);
    assert(join_model(a, a) =~= a);
}

/// Join monotonicity: if `a ⊑ b` then `join(a, c) ⊑ join(b, c)` in the
/// point-wise order.
pub proof fn lemma_join_monotone(a: AbsModel, b: AbsModel, c: AbsModel)
    requires
        state_leq(a, b),
    ensures
        state_leq(join_model(a, c), join_model(b, c)),
{
    assert forall|i: int|
        0 <= i < join_model(b, c).stack.len() implies opt_leq(
        join_model(a, c).stack[i],
        join_model(b, c).stack[i],
    ) by {
        assert(opt_leq(a.stack[i], b.stack[i]));
    }
}

/// Join commutativity.
pub proof fn lemma_join_commutative(a: AbsModel, b: AbsModel)
    ensures
        join_model(a, b) == join_model(b, a),
{
    assert(join_stacks(a.stack, b.stack) =~= join_stacks(b.stack, a.stack));
    assert(join_model(a, b) =~= join_model(b, a));
}

impl AbstractState {
    /// Package a free-memory pointer and a stack frame as a state.
    pub fn new(freemem_ptr: Option<usize>, stack_frame: Vec<Option<W256>>) -> (r: AbstractState)
        ensures
            r@.fmp == freemem_ptr,
            r@.stack == stack_frame@,
    {
        AbstractState { freemem_ptr, stack_frame }
    }

    /// The free memory pointer, if known.
    pub fn freemem_ptr(&self) -> (r: Option<usize>)
        ensures
            r == self@.fmp,
    {
        self.freemem_ptr
    }

    /// The known stack slots, top of stack first.
    pub fn stack(&self) -> (r: &[Option<W256>])
        ensures
            r@ == self@.stack,
    {
        self.stack_frame.as_slice()
    }

    /// Forget the given stack slot, if it exists.
    pub fn clear_stack_item(&mut self, index: usize)
        ensures
            final(self)@.fmp == old(self)@.fmp,
            final(self)@.stack == if index < old(self)@.stack.len() {
                old(self)@.stack.update(index as int, None::<W256>)
            } else {
                old(self)@.stack
            },
    {
        if index < self.stack_frame.len() {
            self.stack_frame[index] = None;
        }
    }

    /// Join this state with another: the standard constant-propagation
    /// meet, truncating to the shorter frame.
    pub fn join(&mut self, other: &AbstractState)
        ensures
            final(self)@ == join_model(old(self)@, other@),
    {
        let ghost orig = self@;
        // Join the free memory pointers.
        self.freemem_ptr = match (&self.freemem_ptr, &other.freemem_ptr) {
            (Some(x), Some(y)) => if *x == *y {
                Some(*x)
            } else {
                None
            },
            _ => None,
        };
        // Truncate to the shorter frame.
        let n = if self.stack_frame.len() <= other.stack_frame.len() {
            self.stack_frame.len()
        } else {
            other.stack_frame.len()
        };
        self.stack_frame.truncate(n);
        // Join slot by slot.
        let mut i: usize = 0;
        while i < n
            invariant
                n <= orig.stack.len(),
                n <= other@.stack.len(),
                i <= n,
                self.freemem_ptr == join_opt(orig.fmp, other@.fmp),
                self.stack_frame@.len() == n,
                forall|k: int| 0 <= k < i ==> self.stack_frame@[k] == join_opt(
                    orig.stack[k],
                    other@.stack[k],
                ),
                forall|k: int| i <= k < n ==> self.stack_frame@[k] == orig.stack[k],
            decreases n - i,
        {
            let a = self.stack_frame[i];
            let b = other.stack_frame[i];
            let joined = match (a, b) {
                (Some(x), Some(y)) => if x == y {
                    Some(x)
                } else {
                    None
                },
                _ => None,
            };
            self.stack_frame[i] = joined;
            i += 1;
        }
        proof {
            assert(self@.stack =~= join_stacks(orig.stack, other@.stack));
            assert(self@ =~= join_model(orig, other@));
        }
    }

    /// Remove what is known in both states: after the call, a slot is
    /// `None` whenever both inputs held a value there, and unchanged
    /// otherwise.
    pub fn cancel(&mut self, other: &AbstractState)
        requires
            other@.stack.len() <= old(self)@.stack.len(),
        ensures
            final(self)@.fmp == old(self)@.fmp,
            final(self)@.stack.len() == old(self)@.stack.len(),
            forall|i: int|
                0 <= i < old(self)@.stack.len() ==> final(self)@.stack[i] == (
                if i < other@.stack.len() && old(self)@.stack[i] is Some && other@.stack[i] is Some {
                    None::<W256>
                } else {
                    old(self)@.stack[i]
                }),
    {
        let ghost orig = self@;
        let n = other.stack_frame.len();
        let mut i: usize = 0;
        while i < n
            invariant
                n == other@.stack.len(),
                n <= orig.stack.len(),
                i <= n,
                self.freemem_ptr == orig.fmp,
                self.stack_frame@.len() == orig.stack.len(),
                forall|k: int| 0 <= k < i ==> self.stack_frame@[k] == (
                    if orig.stack[k] is Some && other@.stack[k] is Some {
                        None::<W256>
                    } else {
                        orig.stack[k]
                    }),
                forall|k: int| i <= k < orig.stack.len() ==> self.stack_frame@[k] == orig.stack[k],
            decreases n - i,
        {
            let cancels = match (&self.stack_frame[i], &other.stack_frame[i]) {
                (Some(_), Some(_)) => true,
                _ => false,
            };
            if cancels {
                self.stack_frame[i] = None;
            }
            i += 1;
        }
    }

    /// A copy of this state, equal to it at the model level.
    pub fn dup(&self) -> (r: AbstractState)
        ensures
            r@ == self@,
    {
        let mut stack: Vec<Option<W256>> = Vec::new();
        let mut i: usize = 0;
        while i < self.stack_frame.len()
            invariant
                i <= self.stack_frame@.len(),
                stack@ == self.stack_frame@.subrange(0, i as int),
            decreases self.stack_frame@.len() - i,
        {
            stack.push(self.stack_frame[i]);
            i += 1;
        }
        assert(stack@ =~= self.stack_frame@);
        let r = AbstractState { freemem_ptr: self.freemem_ptr, stack_frame: stack };
        assert(r@ =~= self@);
        r
    }

    /// Model equality test: same free memory pointer and the same
    /// slot-by-slot stack frame.
    pub fn equals(&self, other: &AbstractState) -> (r: bool)
        ensures
            r == (self@ == other@),
    {
        let fmp_eq = match (&self.freemem_ptr, &other.freemem_ptr) {
            (Some(x), Some(y)) => *x == *y,
            (None, None) => true,
            _ => false,
        };
        if !fmp_eq {
            return false;
        }
        if self.stack_frame.len() != other.stack_frame.len() {
            assert(self@.stack.len() != other@.stack.len());
            return false;
        }
        let n = self.stack_frame.len();
        let mut i: usize = 0;
        while i < n
            invariant
                n == self.stack_frame@.len(),
                n == other.stack_frame@.len(),
                i <= n,
                forall|k: int| 0 <= k < i ==> self.stack_frame@[k] == other.stack_frame@[k],
            decreases n - i,
        {
            let same = match (&self.stack_frame[i], &other.stack_frame[i]) {
                (Some(x), Some(y)) => *x == *y,
                (None, None) => true,
                _ => false,
            };
            if !same {
                assert(self@.stack[i as int] != other@.stack[i as int]);
                return false;
            }
            i += 1;
        }
        proof {
            assert(self@.stack =~= other@.stack);
            assert(self@ =~= other@);
        }
        true
    }
}

/// The left fold of `join` over a non-empty sequence of states.
pub open spec fn join_fold(s: Seq<AbsModel>) -> AbsModel
    recommends
        s.len() > 0,
    decreases s.len(),
{
    if s.len() <= 1 {
        s[0]
    } else {
        join_model(join_fold(s.drop_last()), s.last())
    }
}

/// The consensus frame is never taller than any contributing frame.
pub proof fn lemma_join_fold_len(models: Seq<AbsModel>)
    requires
        models.len() > 0,
    ensures
        forall|k: int|
            0 <= k < models.len() ==> join_fold(models).stack.len() <= (
            #[trigger] models[k]).stack.len(),
    decreases models.len(),
{
    if models.len() > 1 {
        lemma_join_fold_len(models.drop_last());
        assert forall|k: int|
            0 <= k < models.len() implies join_fold(models).stack.len() <= (
            #[trigger] models[k]).stack.len() by {
            if k < models.len() - 1 {
                assert(models.drop_last()[k] == models[k]);
            }
        }
    }
}

/// Join a non-empty slice of states into their consensus.
pub fn join_all(states: &[AbstractState]) -> (r: AbstractState)
    requires
        states@.len() > 0,
    ensures
        r@ == join_fold(states@.map_values(|s: AbstractState| s@)),
{
    let ghost models = states@.map_values(|s: AbstractState| s@);
    let mut acc = states[0].dup();
    let mut i: usize = 1;
    while i < states.len()
        invariant
            1 <= i <= states@.len(),
            models == states@.map_values(|s: AbstractState| s@),
            models.len() == states@.len(),
            acc@ == join_fold(models.take(i as int)),
        decreases states@.len() - i,
    {
        acc.join(&states[i]);
        proof {
            assert(models.take(i + 1).drop_last() =~= models.take(i as int));
            assert(models.take(i + 1).last() == models[i as int]);
        }
        i += 1;
    }
    proof {
        assert(models.take(models.len() as int) =~= models);
    }
    acc
}

/// The minimum and maximum stack height over the states reached at the
/// given instruction offset (`usize::MAX` and `0` when none was).
pub fn determine_stack_size(index: usize, analysis: &Vec<Vec<AbstractState>>) -> (r: (
    usize,
    usize,
))
    requires
        index < analysis@.len(),
    ensures
        forall|k: int|
            0 <= k < analysis@[index as int]@.len() ==> r.0
                <= analysis@[index as int]@[k]@.stack.len() && analysis@[index as int]@[k]@.stack.len()
                <= r.1,
        analysis@[index as int]@.len() == 0 ==> r.0 == usize::MAX && r.1 == 0,
        analysis@[index as int]@.len() > 0 ==> (exists|k: int|
            0 <= k < analysis@[index as int]@.len() && r.0 == analysis@[index as int]@[k]@.stack.len())
            && (exists|k: int|
            0 <= k < analysis@[index as int]@.len() && r.1 == analysis@[index as int]@[k]@.stack.len()),
{
    let row = &analysis[index];
    proof {
        assert(row@ == analysis@[index as int]@);
    }
    let mut lo: usize = usize::MAX;
    let mut hi: usize = 0;
    let mut k: usize = 0;
    while k < row.len()
        invariant
            index < analysis@.len(),
            row@ == analysis@[index as int]@,
            k <= row@.len(),
            forall|j: int| 0 <= j < k ==> lo <= row@[j]@.stack.len() && row@[j]@.stack.len() <= hi,
            k == 0 ==> lo == usize::MAX && hi == 0,
            k > 0 ==> (exists|j: int| 0 <= j < k && lo == row@[j]@.stack.len()) && (exists|j: int|
                0 <= j < k && hi == row@[j]@.stack.len()),
        decreases row@.len() - k,
    {
        let h = row[k].stack().len();
        if h < lo {
            lo = h;
        }
        if h > hi {
            hi = h;
        }
        if k == 0 && lo == usize::MAX {
            // A first state with the maximal height fixes both bounds.
            assert(h == usize::MAX);
        }
        k += 1;
    }
    (lo, hi)
}

/// The sorted, duplicate-free list of values the given stack slot can
/// hold at the given instruction offset, or `None` if the slot is
/// unknown (absent or unconstrained) in some reached state.
pub fn extract_stack_values(i: usize, index: usize, analysis: &Vec<Vec<AbstractState>>) -> (r:
    Option<Vec<W256>>)
    requires
        index < analysis@.len(),
    ensures
        r is Some <==> (forall|k: int|
            0 <= k < analysis@[index as int]@.len() ==> i < analysis@[index as int]@[k]@.stack.len()
                && analysis@[index as int]@[k]@.stack[i as int] is Some),
        r matches Some(vs) ==> strictly_increasing_words(vs@) && (forall|w: W256|
            vs@.contains(w) <==> exists|k: int|
                0 <= k < analysis@[index as int]@.len() && analysis@[index as int]@[k]@.stack[i as int]
                    == Some(w)),
{
    let row = &analysis[index];
    proof {
        assert(row@ == analysis@[index as int]@);
    }
    let mut values: Vec<W256> = Vec::new();
    let mut k: usize = 0;
    while k < row.len()
        invariant
            index < analysis@.len(),
            row@ == analysis@[index as int]@,
            k <= row@.len(),
            forall|j: int| 0 <= j < k ==> i < row@[j]@.stack.len() && row@[j]@.stack[i as int]
                is Some,
            strictly_increasing_words(values@),
            forall|w: W256| values@.contains(w) <==> exists|j: int|
                0 <= j < k && row@[j]@.stack[i as int] == Some(w),
        decreases row@.len() - k,
    {
        let st = row[k].stack();
        if i >= st.len() {
            proof {
                assert_by_contradiction!(!(forall|k2: int|
                    0 <= k2 < analysis@[index as int]@.len() ==> i < analysis@[index as int]@[k2]@.stack.len()
                        && analysis@[index as int]@[k2]@.stack[i as int] is Some), {
                    assert(row@[k as int] == analysis@[index as int]@[k as int]);
                    assert(i < analysis@[index as int]@[k as int]@.stack.len());
                });
            }
            return None;
        }
        match st[i] {
            Some(w) => {
                insert_unique_word(&mut values, w);
            },
            None => {
                proof {
                    assert_by_contradiction!(!(forall|k2: int|
                        0 <= k2 < analysis@[index as int]@.len() ==> i < analysis@[index as int]@[k2]@.stack.len()
                            && analysis@[index as int]@[k2]@.stack[i as int] is Some), {
                        assert(row@[k as int] == analysis@[index as int]@[k as int]);
                        assert(analysis@[index as int]@[k as int]@.stack[i as int] is Some);
                    });
                }
                return None;
            },
        }
        k += 1;
    }
    proof {
        assert forall|w: W256| values@.contains(w) implies (exists|k2: int|
            0 <= k2 < analysis@[index as int]@.len() && analysis@[index as int]@[k2]@.stack[i as int]
                == Some(w)) by {
            let j = choose|j: int| 0 <= j < row@.len() && row@[j]@.stack[i as int] == Some(w);
            assert(analysis@[index as int]@[j]@.stack[i as int] == Some(w));
        }
        assert forall|w: W256| (exists|k2: int|
            0 <= k2 < analysis@[index as int]@.len() && analysis@[index as int]@[k2]@.stack[i as int]
                == Some(w)) implies values@.contains(w) by {
            let j = choose|j: int|
                0 <= j < analysis@[index as int]@.len() && analysis@[index as int]@[j]@.stack[i as int]
                    == Some(w);
            assert(row@[j]@.stack[i as int] == Some(w));
        }
    }
    Some(values)
}

/// The sorted, duplicate-free list of free-memory-pointer values at
/// the given instruction offset; empty when the pointer is unknown in
/// some reached state.
pub fn extract_free_mem_pointer(index: usize, analysis: &Vec<Vec<AbstractState>>) -> (r: Vec<
    usize,
>)
    requires
        index < analysis@.len(),
    ensures
        (exists|k: int|
            0 <= k < analysis@[index as int]@.len() && analysis@[index as int]@[k]@.fmp is None)
            ==> r@.len() == 0,
        (forall|k: int|
            0 <= k < analysis@[index as int]@.len() ==> analysis@[index as int]@[k]@.fmp is Some)
            ==> strictly_increasing(r@) && (forall|p: usize|
            r@.contains(p) <==> exists|k: int|
                0 <= k < analysis@[index as int]@.len() && analysis@[index as int]@[k]@.fmp == Some(
                    p,
                )),
{
    let row = &analysis[index];
    proof {
        assert(row@ == analysis@[index as int]@);
    }
    let mut values: Vec<usize> = Vec::new();
    let mut k: usize = 0;
    while k < row.len()
        invariant
            index < analysis@.len(),
            row@ == analysis@[index as int]@,
            k <= row@.len(),
            forall|j: int| 0 <= j < k ==> row@[j]@.fmp is Some,
            strictly_increasing(values@),
            forall|p: usize| values@.contains(p) <==> exists|j: int|
                0 <= j < k && row@[j]@.fmp == Some(p),
        decreases row@.len() - k,
    {
        match row[k].freemem_ptr() {
            Some(p) => {
                insert_unique_usize(&mut values, p);
            },
            None => {
                assert(row@[k as int] == analysis@[index as int]@[k as int]);
                assert(analysis@[index as int]@[k as int]@.fmp is None);
                return Vec::new();
            },
        }
        k += 1;
    }
    proof {
        assert forall|p: usize| values@.contains(p) implies (exists|k2: int|
            0 <= k2 < analysis@[index as int]@.len() && analysis@[index as int]@[k2]@.fmp == Some(p))
            by {
            let j = choose|j: int| 0 <= j < row@.len() && row@[j]@.fmp == Some(p);
            assert(analysis@[index as int]@[j]@.fmp == Some(p));
        }
        assert forall|p: usize| (exists|k2: int|
            0 <= k2 < analysis@[index as int]@.len() && analysis@[index as int]@[k2]@.fmp == Some(p))
            implies values@.contains(p) by {
            let j = choose|j: int|
                0 <= j < analysis@[index as int]@.len() && analysis@[index as int]@[j]@.fmp == Some(
                    p,
                );
            assert(row@[j]@.fmp == Some(p));
        }
    }
    values
}

/// Whether every state knows its top-of-stack as a native-sized value,
/// so an indirect branch there can be resolved.
pub open spec fn targets_resolved(states: Seq<AbsModel>) -> bool {
    forall|k: int|
        0 <= k < states.len() ==> states[k].stack.len() > 0 && states[k].stack[0] is Some
            && states[k].stack[0]->0.value() <= usize::MAX
}

/// The set of possible branch targets at an indirect branch: the
/// top-of-stack value of every reached state, sorted and duplicate
/// free.  An unknown top of stack is a hard error the emitter cannot
/// satisfy.
pub fn jump_targets(pc: usize, states: &[AbstractState]) -> (r: Result<Vec<usize>, Error>)
    ensures
        r is Ok <==> targets_resolved(states@.map_values(|s: AbstractState| s@)),
        r is Err ==> r == Err::<Vec<usize>, Error>(Error::UnresolvedBranch(pc)),
        r matches Ok(ts) ==> strictly_increasing(ts@) && (forall|t: usize|
            ts@.contains(t) <==> exists|k: int|
                0 <= k < states@.len() && states@[k]@.stack.len() > 0
                    && (states@[k]@.stack[0] matches Some(w) && w.value() == t)),
{
    let ghost models = states@.map_values(|s: AbstractState| s@);
    let mut targets: Vec<usize> = Vec::new();
    let mut k: usize = 0;
    while k < states.len()
        invariant
            k <= states@.len(),
            models == states@.map_values(|s: AbstractState| s@),
            models.len() == states@.len(),
            forall|j: int| 0 <= j < k ==> models[j].stack.len() > 0 && models[j].stack[0] is Some
                && models[j].stack[0]->0.value() <= usize::MAX,
            strictly_increasing(targets@),
            forall|t: usize| targets@.contains(t) <==> exists|j: int|
                0 <= j < k && models[j].stack.len() > 0 && (models[j].stack[0] matches Some(w)
                    && w.value() == t),
        decreases states@.len() - k,
    {
        let st = states[k].stack();
        if st.len() == 0 {
            assert(models[k as int].stack.len() == 0);
            assert(!targets_resolved(models));
            return Err(Error::UnresolvedBranch(pc));
        }
        match st[0] {
            Some(w) => {
                match w.as_native() {
                    Some(t) => {
                        insert_unique_usize(&mut targets, t);
                    },
                    None => {
                        assert(models[k as int].stack[0]->0.value() > usize::MAX);
                        assert(!targets_resolved(models));
                        return Err(Error::UnresolvedBranch(pc));
                    },
                }
            },
            None => {
                assert(models[k as int].stack[0] is None);
                assert(!targets_resolved(models));
                return Err(Error::UnresolvedBranch(pc));
            },
        }
        k += 1;
    }
    proof {
        assert(targets_resolved(models));
        assert forall|t: usize| targets@.contains(t) implies (exists|k2: int|
            0 <= k2 < states@.len() && states@[k2]@.stack.len() > 0 && (
            states@[k2]@.stack[0] matches Some(w) && w.value() == t)) by {
            let j = choose|j: int|
                0 <= j < models.len() && models[j].stack.len() > 0 && (
                models[j].stack[0] matches Some(w) && w.value() == t);
            assert(states@[j]@ == models[j]);
        }
        assert forall|t: usize| (exists|k2: int|
            0 <= k2 < states@.len() && states@[k2]@.stack.len() > 0 && (
            states@[k2]@.stack[0] matches Some(w) && w.value() == t)) implies targets@.contains(t)
            by {
            let j = choose|j: int|
                0 <= j < states@.len() && states@[j]@.stack.len() > 0 && (
                states@[j]@.stack[0] matches Some(w) && w.value() == t);
            assert(models[j] == states@[j]@);
        }
    }
    Ok(targets)
}

/// The branch targets of a branching instruction.  Static jumps carry
/// their absolute target; indirect jumps read the abstract states at
/// the branch.  Undefined for non-branching instructions.
pub fn branch_targets(pc: usize, insn: &Instr, states: &[AbstractState]) -> (r: Result<
    Vec<usize>,
    Error,
>)
    requires
        insn is Jump || insn is JumpI || insn is RJump || insn is RJumpI,
    ensures
        insn matches Instr::RJump(t) ==> (r matches Ok(ts) && ts@ == seq![*t]),
        insn matches Instr::RJumpI(t) ==> (r matches Ok(ts) && ts@ == seq![*t]),
        (insn is Jump || insn is JumpI) ==> {
            &&& r is Ok <==> targets_resolved(states@.map_values(|s: AbstractState| s@))
            &&& (r matches Ok(ts) ==> strictly_increasing(ts@) && (forall|t2: usize|
                ts@.contains(t2) <==> exists|k: int|
                    0 <= k < states@.len() && states@[k]@.stack.len() > 0 && (
                    states@[k]@.stack[0] matches Some(w) && w.value() == t2)))
        },
{
    match insn {
        Instr::RJump(t) => {
            let ts = vec![*t];
            proof {
                assert(ts@ =~= seq![*t]);
            }
            Ok(ts)
        },
        Instr::RJumpI(t) => {
            let ts = vec![*t];
            proof {
                assert(ts@ =~= seq![*t]);
            }
            Ok(ts)
        },
        _ => jump_targets(pc, states),
    }
}

/// Whether a row of states holds a state with the given model.
pub open spec fn row_has(row: Seq<AbsModel>, m: AbsModel) -> bool {
    exists|k: int| 0 <= k < row.len() && row[k] == m
}

/// Whether every state in a row has a distinct model.
pub open spec fn row_distinct(row: Seq<AbsModel>) -> bool {
    forall|p: int, q: int| 0 <= p < q < row.len() ==> row[p] != row[q]
}

/// Whether `out` holds a state with the same model as `s`.
fn row_contains(out: &Vec<AbstractState>, s: &AbstractState) -> (r: bool)
    ensures
        r == row_has(out@.map_values(|x: AbstractState| x@), s@),
{
    let ghost models = out@.map_values(|x: AbstractState| x@);
    let mut p: usize = 0;
    while p < out.len()
        invariant
            p <= out@.len(),
            models == out@.map_values(|x: AbstractState| x@),
            models.len() == out@.len(),
            forall|j: int| 0 <= j < p ==> models[j] != s@,
        decreases out@.len() - p,
    {
        if out[p].equals(s) {
            assert(models[p as int] == s@);
            return true;
        }
        p += 1;
    }
    assert(!row_has(models, s@));
    false
}

/// Remove duplicate states from a row, keeping the first occurrence of
/// each distinct model (order is otherwise irrelevant; comparison is
/// structural).
fn dedup_row(row: &Vec<AbstractState>) -> (r: Vec<AbstractState>)
    ensures
        row_distinct(r@.map_values(|x: AbstractState| x@)),
        forall|p: int|
            0 <= p < r@.len() ==> row_has(
                row@.map_values(|x: AbstractState| x@),
                (#[trigger] r@[p])@,
            ),
        forall|k: int|
            0 <= k < row@.len() ==> row_has(
                r@.map_values(|x: AbstractState| x@),
                (#[trigger] row@[k])@,
            ),
{
    let ghost in_models = row@.map_values(|x: AbstractState| x@);
    let mut out: Vec<AbstractState> = Vec::new();
    let mut k: usize = 0;
    while k < row.len()
        invariant
            k <= row@.len(),
            in_models == row@.map_values(|x: AbstractState| x@),
            in_models.len() == row@.len(),
            row_distinct(out@.map_values(|x: AbstractState| x@)),
            forall|p: int|
                0 <= p < out@.len() ==> row_has(in_models, (#[trigger] out@[p])@),
            forall|j: int|
                0 <= j < k ==> row_has(out@.map_values(|x: AbstractState| x@), in_models[j]),
        decreases row@.len() - k,
    {
        let ghost before = out@.map_values(|x: AbstractState| x@);
        proof {
            assert(in_models[k as int] == row@[k as int]@);
        }
        if !row_contains(&out, &row[k]) {
            out.push(row[k].dup());
            proof {
                let after = out@.map_values(|x: AbstractState| x@);
                assert(after =~= before.push(row@[k as int]@));
                assert(after[after.len() - 1] == in_models[k as int]);
                assert forall|j: int| 0 <= j <= k implies row_has(after, in_models[j]) by {
                    if j < k {
                        let p = choose|p: int| 0 <= p < before.len() && before[p] == in_models[j];
                        assert(after[p] == in_models[j]);
                    } else {
                        assert(after[after.len() - 1] == in_models[j]);
                    }
                }
            }
        }
        k += 1;
    }
    proof {
        assert forall|k2: int| 0 <= k2 < row@.len() implies row_has(
            out@.map_values(|x: AbstractState| x@),
            (row@[k2])@,
        ) by {
            assert(in_models[k2] == row@[k2]@);
        }
    }
    out
}

/// The key information generated by the abstract interpretation of an
/// instruction sequence: for each instruction offset, the set of
/// distinct abstract states that reach it.
pub struct BytecodeAnalysis {
    states: Vec<Vec<AbstractState>>,
}

impl View for BytecodeAnalysis {
    type V = Seq<Seq<AbsModel>>;

    closed spec fn view(&self) -> Seq<Seq<AbsModel>> {
        self.states@.map_values(|row: Vec<AbstractState>| row@.map_values(|x: AbstractState| x@))
    }
}

impl BytecodeAnalysis {
    /// Run the abstract trace over an instruction sequence and model
    /// the reached states, de-duplicated per offset.  The boolean
    /// reports whether the trace completed within its step limit.
    /// The trace's output is unconstrained, so the exact relation
    /// between raw rows and their de-duplicated models is the
    /// contract of `from_rows`, which does the work.
    pub fn from_insns(insns: &Vec<evmil::bytecode::Instruction>, limit: usize) -> (r: (
        BytecodeAnalysis,
        bool,
    ))
        ensures
            r.0@.len() == insns@.len(),
            forall|i: int| 0 <= i < r.0@.len() ==> row_distinct(r.0@[i]),
    {
        let (rows, complete) = crate::bridge::trace_states(insns, limit);
        let analysis = Self::from_rows(rows);
        (analysis, complete)
    }

    /// Package per-offset state rows, de-duplicating each row: every
    /// output row holds exactly the distinct models of its input row.
    pub fn from_rows(rows: Vec<Vec<AbstractState>>) -> (r: BytecodeAnalysis)
        ensures
            r@.len() == rows@.len(),
            forall|i: int| 0 <= i < r@.len() ==> row_distinct(r@[i]),
            forall|i: int, k: int|
                0 <= i < r@.len() && 0 <= k < r@[i].len() ==> row_has(
                    rows@[i]@.map_values(|x: AbstractState| x@),
                    #[trigger] r@[i][k],
                ),
            forall|i: int, k: int|
                0 <= i < rows@.len() && 0 <= k < rows@[i]@.len() ==> row_has(
                    r@[i],
                    (#[trigger] rows@[i]@[k])@,
                ),
    {
        let mut states: Vec<Vec<AbstractState>> = Vec::new();
        let mut i: usize = 0;
        while i < rows.len()
            invariant
                i <= rows@.len(),
                states@.len() == i,
                forall|j: int|
                    0 <= j < i ==> row_distinct(
                        states@[j]@.map_values(|x: AbstractState| x@),
                    ),
                forall|j: int, k: int|
                    0 <= j < i && 0 <= k < states@[j]@.len() ==> row_has(
                        rows@[j]@.map_values(|x: AbstractState| x@),
                        (#[trigger] states@[j]@[k])@,
                    ),
                forall|j: int, k: int|
                    0 <= j < i && 0 <= k < rows@[j]@.len() ==> row_has(
                        states@[j]@.map_values(|x: AbstractState| x@),
                        (#[trigger] rows@[j]@[k])@,
                    ),
            decreases rows@.len() - i,
        {
            states.push(dedup_row(&rows[i]));
            i += 1;
        }
        let r = BytecodeAnalysis { states };
        proof {
            assert(r@.len() == rows@.len());
            assert forall|i2: int| 0 <= i2 < r@.len() implies row_distinct(r@[i2]) by {
                assert(r@[i2] == r.states@[i2]@.map_values(|x: AbstractState| x@));
            }
            assert forall|i2: int, k: int|
                0 <= i2 < r@.len() && 0 <= k < r@[i2].len() implies row_has(
                rows@[i2]@.map_values(|x: AbstractState| x@),
                #[trigger] r@[i2][k],
            ) by {
                assert(r@[i2] == r.states@[i2]@.map_values(|x: AbstractState| x@));
                assert(r@[i2][k] == (r.states@[i2]@[k])@);
            }
            assert forall|i2: int, k: int|
                0 <= i2 < rows@.len() && 0 <= k < rows@[i2]@.len() implies row_has(
                r@[i2],
                (#[trigger] rows@[i2]@[k])@,
            ) by {
                assert(r@[i2] == r.states@[i2]@.map_values(|x: AbstractState| x@));
            }
        }
        r
    }

    /// The distinct abstract states reaching the instruction at the
    /// given offset within the original sequence.
    pub fn get_states(&self, index: usize) -> (r: &[AbstractState])
        requires
            index < self@.len(),
        ensures
            r@.map_values(|x: AbstractState| x@) == self@[index as int],
    {
        let r = self.states[index].as_slice();
        proof {
            assert(self@[index as int] == self.states@[index as int]@.map_values(
                |x: AbstractState| x@,
            ));
        }
        r
    }
}

} // verus!
