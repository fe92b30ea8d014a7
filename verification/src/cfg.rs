//! The control-flow graph of one code section: the external
//! basic-block graph modelled as plain dominator, reachability and
//! successor sets, together with the super-block decomposition and the
//! designated entry points.  A root owns a super-block when it
//! dominates it and no more specific root reaches it.

use vstd::prelude::*;
use crate::block::{block_eqv, Block, BlockSequence, PrecheckPolicy, all_blocks_wf,
    contiguous_cover, fixpoint_property, pruned_blocks};
use crate::bridge::GraphModel;
use crate::errors::Error;
use crate::sorted::strictly_increasing;

verus! {

/// The basic-block node covering instruction offset `k`: the first
/// node whose end lies beyond it.
pub open spec fn node_of(ends: Seq<usize>, k: int) -> int
    decreases ends.len(),
{
    if ends.len() == 0 {
        0
    } else if k < ends[0] {
        0
    } else {
        1 + node_of(ends.drop_first(), k)
    }
}

/// The instruction offset starting at the given byte offset, if any
/// does (the first, where a zero-length virtual instruction shares its
/// offset with its successor).
pub open spec fn insn_at(pcs: Seq<usize>, pc: usize) -> Option<int>
    decreases pcs.len(),
{
    if pcs.len() == 0 {
        None
    } else if pcs[0] == pc {
        Some(0)
    } else {
        match insn_at(pcs.drop_first(), pc) {
            Some(k) => Some(1 + k),
            None => None,
        }
    }
}

/// `node_of` yields the first node whose end lies beyond the offset,
/// or the node count when none does.
pub proof fn lemma_node_of(ends: Seq<usize>, k: int)
    ensures
        0 <= node_of(ends, k) <= ends.len(),
        node_of(ends, k) < ends.len() ==> k < ends[node_of(ends, k)],
        forall|j: int| 0 <= j < node_of(ends, k) ==> ends[j] <= k,
        (forall|j: int| 0 <= j < ends.len() ==> ends[j] <= k) ==> node_of(ends, k) == ends.len(),
        (exists|j: int| 0 <= j < ends.len() && k < ends[j]) ==> node_of(ends, k) < ends.len(),
    decreases ends.len(),
{
    if ends.len() > 0 && k >= ends[0] {
        lemma_node_of(ends.drop_first(), k);
        assert forall|j: int| 0 <= j < node_of(ends, k) implies ends[j] <= k by {
            if j > 0 {
                assert(ends.drop_first()[j - 1] == ends[j]);
            }
        }
        if exists|j: int| 0 <= j < ends.len() && k < ends[j] {
            let j = choose|j: int| 0 <= j < ends.len() && k < ends[j];
            assert(j > 0);
            assert(ends.drop_first()[j - 1] == ends[j]);
        }
        if node_of(ends, k) < ends.len() {
            assert(ends[node_of(ends, k)] == ends.drop_first()[node_of(ends.drop_first(), k)]);
        }
    }
}

/// `insn_at` yields the first matching offset, when one exists.
pub proof fn lemma_insn_at(pcs: Seq<usize>, pc: usize)
    ensures
        insn_at(pcs, pc) is Some <==> pcs.contains(pc),
        insn_at(pcs, pc) matches Some(x) ==> 0 <= x < pcs.len() && pcs[x] == pc && (forall|j: int|
            0 <= j < x ==> pcs[j] != pc),
    decreases pcs.len(),
{
    if pcs.len() > 0 && pcs[0] != pc {
        lemma_insn_at(pcs.drop_first(), pc);
        if pcs.contains(pc) {
            let j = choose|j: int| 0 <= j < pcs.len() && pcs[j] == pc;
            assert(j > 0);
            assert(pcs.drop_first()[j - 1] == pc);
            assert(pcs.drop_first().contains(pc));
        }
        if pcs.drop_first().contains(pc) {
            let j = choose|j: int| 0 <= j < pcs.drop_first().len() && pcs.drop_first()[j] == pc;
            assert(pcs[j + 1] == pc);
            assert(pcs.contains(pc));
        }
        match insn_at(pcs, pc) {
            Some(x) => {
                assert(insn_at(pcs.drop_first(), pc) == Some(x - 1));
                assert(pcs.drop_first()[x - 1] == pcs[x]);
                assert forall|j: int| 0 <= j < x implies pcs[j] != pc by {
                    if j > 0 {
                        assert(pcs.drop_first()[j - 1] == pcs[j]);
                    }
                }
            },
            None => {},
        }
    }
}

/// An amalgamation of the information required to split one code
/// section's instruction stream into distinct regions of ownership.
pub struct ControlFlowGraph {
    /// Code section identifier.
    cid: usize,
    /// The plain model of the external basic-block graph.
    graph: GraphModel,
    /// For each node, the nodes it reaches in one or more steps: the
    /// transitive closure of the successor sets.
    reaches: Vec<Vec<usize>>,
    /// Byte offset of each instruction, plus one past the last.
    insn_pcs: Vec<usize>,
    /// Designated entry points (absolute byte offsets).
    roots: Vec<usize>,
    /// The super-block decomposition (independent granularity).
    blocks: BlockSequence,
}

impl ControlFlowGraph {
    /// Structural soundness: the graph's tables agree in length, its
    /// node ends partition the instruction offsets, and every edge
    /// endpoint is in range.
    pub closed spec fn wf(&self) -> bool {
        &&& self.graph.dominators@.len() == self.graph.node_ends@.len()
        &&& self.reaches@.len() == self.graph.node_ends@.len()
        &&& self.graph.successors@.len() == self.graph.node_ends@.len()
        &&& strictly_increasing(self.graph.node_ends@)
        &&& self.insn_pcs@.len() >= 1
        &&& (self.graph.node_ends@.len() > 0 ==> self.graph.node_ends@[self.graph.node_ends@.len()
            - 1] == self.insn_pcs@.len() - 1)
        &&& forall|n: int, k: int|
            0 <= n < self.graph.dominators@.len() && 0 <= k < self.graph.dominators@[n]@.len()
                ==> self.graph.dominators@[n]@[k] < self.graph.node_ends@.len()
        &&& forall|n: int, k: int|
            0 <= n < self.reaches@.len() && 0 <= k < self.reaches@[n]@.len()
                ==> self.reaches@[n]@[k] <= self.graph.node_ends@.len()
        &&& forall|n: int, k: int|
            0 <= n < self.graph.successors@.len() && 0 <= k < self.graph.successors@[n]@.len()
                ==> self.graph.successors@[n]@[k] <= self.graph.node_ends@.len()
        &&& all_blocks_wf(self.blocks_view())
    }

    pub closed spec fn spec_cid(&self) -> usize {
        self.cid
    }

    pub closed spec fn roots_view(&self) -> Seq<usize> {
        self.roots@
    }

    pub closed spec fn blocks_view(&self) -> Seq<Block> {
        self.blocks.blocks_view()
    }

    /// The node holding the instruction that starts at the given byte
    /// offset, if one does and it lies within the graph.
    pub closed spec fn spec_node_at(&self, pc: usize) -> Option<int> {
        match insn_at(self.insn_pcs@.drop_last(), pc) {
            Some(k) => {
                let n = node_of(self.graph.node_ends@, k);
                if n < self.graph.node_ends@.len() {
                    Some(n)
                } else {
                    None
                }
            },
            None => None,
        }
    }

    /// Whether the byte offset `parent` dominates the byte offset
    /// `child`: every path from the section entry to `child`'s node
    /// passes through `parent`'s node.
    pub closed spec fn spec_dominates(&self, parent: usize, child: usize) -> bool {
        match (self.spec_node_at(parent), self.spec_node_at(child)) {
            (Some(gp), Some(gc)) => self.graph.dominators@[gc]@.contains(gp as usize),
            _ => false,
        }
    }

    /// Whether the byte offset `parent` reaches the byte offset
    /// `child` through zero or more edges.
    pub closed spec fn spec_reaches(&self, parent: usize, child: usize) -> bool {
        match (self.spec_node_at(parent), self.spec_node_at(child)) {
            (Some(gp), Some(gc)) => parent == child || self.reaches@[gp]@.contains(gc as usize),
            _ => false,
        }
    }

    /// Whether the byte offset `from` touches the byte offset `to`:
    /// there is a direct edge between their nodes.
    pub closed spec fn spec_touches(&self, from: usize, to: usize) -> bool {
        match (self.spec_node_at(from), self.spec_node_at(to)) {
            (Some(gf), Some(gt)) => self.graph.successors@[gf]@.contains(gt as usize),
            _ => false,
        }
    }

    /// Whether `root` owns the block at byte offset `pc`: the root
    /// dominates it, and no other root that the root dominates reaches
    /// it — the block belongs to the most specific entry whose scope
    /// contains it.
    pub closed spec fn spec_owns_pc(&self, root: usize, pc: usize) -> bool {
        &&& self.spec_dominates(root, pc)
        &&& forall|k: int|
            0 <= k < self.roots_view().len() ==> !((#[trigger] self.roots_view()[k]) != root
                && self.spec_dominates(root, self.roots_view()[k]) && self.spec_reaches(
                self.roots_view()[k],
                pc,
            ))
    }

    pub fn cid(&self) -> (r: usize)
        ensures
            r == self.spec_cid(),
    {
        self.cid
    }

    pub fn roots(&self) -> (r: &[usize])
        ensures
            r@ == self.roots_view(),
    {
        self.roots.as_slice()
    }

    pub fn blocks(&self) -> (r: &[Block])
        ensures
            r@ == self.blocks_view(),
    {
        self.blocks.as_ref()
    }

    /// Designate a byte offset as an entry point.
    pub fn add_root(&mut self, pc: usize)
        ensures
            final(self).roots_view() == old(self).roots_view().push(pc),
            final(self).wf() == old(self).wf(),
            final(self).blocks_view() == old(self).blocks_view(),
            final(self).spec_cid() == old(self).spec_cid(),
            forall|r: usize, c: usize| final(self).spec_dominates(r, c) == old(
                self,
            ).spec_dominates(r, c),
            forall|r: usize, c: usize| final(self).spec_reaches(r, c) == old(self).spec_reaches(
                r,
                c,
            ),
            forall|r: usize, c: usize| final(self).spec_touches(r, c) == old(self).spec_touches(
                r,
                c,
            ),
    {
        self.roots.push(pc);
    }

    /// Find the node holding the instruction starting at a byte
    /// offset.
    fn node_at(&self, pc: usize) -> (r: Option<usize>)
        requires
            self.wf(),
        ensures
            r is Some <==> self.spec_node_at(pc) is Some,
            r matches Some(n) ==> Some(n as int) == self.spec_node_at(pc) && n
                < self.graph.node_ends@.len(),
    {
        let ghost pcs = self.insn_pcs@.drop_last();
        proof {
            lemma_insn_at(pcs, pc);
            assert(forall|j: int| 0 <= j < pcs.len() ==> pcs[j] == self.insn_pcs@[j]);
        }
        // Find the instruction with this starting offset.
        let count = self.insn_pcs.len() - 1;
        let mut k: usize = 0;
        while k < count && self.insn_pcs[k] != pc
            invariant
                self.wf(),
                count + 1 == self.insn_pcs@.len(),
                pcs == self.insn_pcs@.drop_last(),
                count == pcs.len(),
                forall|j: int| 0 <= j < pcs.len() ==> pcs[j] == self.insn_pcs@[j],
                k <= count,
                forall|j: int| 0 <= j < k ==> pcs[j] != pc,
            decreases count - k,
        {
            k += 1;
        }
        if k == count {
            proof {
                if pcs.contains(pc) {
                    let j = choose|j: int| 0 <= j < pcs.len() && pcs[j] == pc;
                    assert(pcs[j] != pc);
                }
                assert(insn_at(pcs, pc) is None);
            }
            return None;
        }
        let ki = k;
        proof {
            assert(pcs[ki as int] == pc);
            assert(pcs.contains(pc));
            lemma_insn_at(pcs, pc);
            let x = insn_at(pcs, pc)->0;
            assert(x <= ki) by {
                if x > ki {
                    assert(pcs[ki as int] != pc);
                }
            }
            assert(x >= ki) by {
                if x < ki {
                    assert(pcs[x] != pc);
                }
            }
            assert(insn_at(pcs, pc) == Some(ki as int));
        }
        // Find the node whose range holds this instruction.
        let ends = &self.graph.node_ends;
        proof {
            lemma_node_of(ends@, ki as int);
        }
        let nlen = ends.len();
        let mut n: usize = 0;
        while n < nlen && ends[n] <= ki
            invariant
                self.wf(),
                ends == &self.graph.node_ends,
                nlen == ends@.len(),
                n <= nlen,
                forall|j: int| 0 <= j < n ==> ends@[j] <= ki,
                node_of(ends@, ki as int) >= n,
            decreases nlen - n,
        {
            proof {
                lemma_node_of(ends@, ki as int);
                assert(node_of(ends@, ki as int) > n) by {
                    if node_of(ends@, ki as int) == n {
                        assert(ki < ends@[n as int]);
                    }
                }
            }
            n += 1;
        }
        proof {
            lemma_node_of(ends@, ki as int);
        }
        if n < nlen {
            proof {
                assert(node_of(ends@, ki as int) <= n) by {
                    if node_of(ends@, ki as int) > n {
                        assert(ends@[n as int] <= ki);
                    }
                }
            }
            Some(n)
        } else {
            proof {
                assert(node_of(ends@, ki as int) == nlen);
            }
            None
        }
    }

    /// Whether one byte offset dominates another.  An offset that
    /// starts no instruction resolves to no node, and the answer is
    /// then `false`; callers pass block entry offsets and designated
    /// roots.
    pub fn dominates(&self, parent: usize, child: usize) -> (r: bool)
        requires
            self.wf(),
        ensures
            r == self.spec_dominates(parent, child),
    {
        let gp = match self.node_at(parent) {
            Some(g) => g,
            None => {
                return false;
            },
        };
        let gc = match self.node_at(child) {
            Some(g) => g,
            None => {
                return false;
            },
        };
        contains_usize(&self.graph.dominators[gc], gp)
    }

    /// Whether one byte offset reaches another through one or more
    /// steps (or is the same offset).
    pub fn reaches(&self, parent: usize, child: usize) -> (r: bool)
        requires
            self.wf(),
        ensures
            r == self.spec_reaches(parent, child),
    {
        let gp = match self.node_at(parent) {
            Some(g) => g,
            None => {
                return false;
            },
        };
        let gc = match self.node_at(child) {
            Some(g) => g,
            None => {
                return false;
            },
        };
        parent == child || contains_usize(&self.reaches[gp], gc)
    }

    /// Whether one byte offset reaches another in exactly one step.
    pub fn touches(&self, from: usize, to: usize) -> (r: bool)
        requires
            self.wf(),
        ensures
            r == self.spec_touches(from, to),
    {
        let gf = match self.node_at(from) {
            Some(g) => g,
            None => {
                return false;
            },
        };
        let gt = match self.node_at(to) {
            Some(g) => g,
            None => {
                return false;
            },
        };
        contains_usize(&self.graph.successors[gf], gt)
    }

    /// Whether a given root owns a given block.
    pub fn owns(&self, root: usize, blk: &Block) -> (r: bool)
        requires
            self.wf(),
        ensures
            r == self.spec_owns_pc(root, blk.spec_pc()),
    {
        let pc = blk.pc();
        if !self.dominates(root, pc) {
            proof {
                assert(!self.spec_owns_pc(root, pc));
            }
            return false;
        }
        let mut k: usize = 0;
        while k < self.roots.len()
            invariant
                self.wf(),
                pc == blk.spec_pc(),
                self.spec_dominates(root, pc),
                k <= self.roots_view().len(),
                forall|j: int|
                    0 <= j < k ==> !((#[trigger] self.roots_view()[j]) != root
                        && self.spec_dominates(root, self.roots_view()[j]) && self.spec_reaches(
                        self.roots_view()[j],
                        pc,
                    )),
            decreases self.roots_view().len() - k,
        {
            let r = self.roots[k];
            if r != root && self.dominates(root, r) && self.reaches(r, pc) {
                // A more specific root reaches this block.
                proof {
                    assert(self.roots_view()[k as int] != root && self.spec_dominates(
                        root,
                        self.roots_view()[k as int],
                    ) && self.spec_reaches(self.roots_view()[k as int], pc));
                    assert(!self.spec_owns_pc(root, pc));
                }
                return false;
            }
            k += 1;
        }
        true
    }

    /// The indices below `n` of the blocks the given root owns, in
    /// ascending order.
    pub open spec fn owned_indices(&self, root: usize, n: int) -> Seq<int>
        decreases n,
    {
        if n <= 0 {
            Seq::empty()
        } else if self.spec_owns_pc(root, self.blocks_view()[n - 1].spec_pc()) {
            self.owned_indices(root, n - 1).push(n - 1)
        } else {
            self.owned_indices(root, n - 1)
        }
    }

    /// The owned indices are in bounds, strictly ascending, and each
    /// names a block the root owns.
    pub proof fn lemma_owned_indices_wf(&self, root: usize, n: int)
        requires
            0 <= n <= self.blocks_view().len(),
        ensures
            forall|k: int|
                0 <= k < self.owned_indices(root, n).len() ==> 0 <= #[trigger] self.owned_indices(
                    root,
                    n,
                )[k] < n,
            forall|k: int|
                0 <= k < self.owned_indices(root, n).len() - 1 ==> #[trigger] self.owned_indices(
                    root,
                    n,
                )[k] < self.owned_indices(root, n)[k + 1],
            forall|k: int|
                0 <= k < self.owned_indices(root, n).len() ==> self.spec_owns_pc(
                    root,
                    self.blocks_view()[#[trigger] self.owned_indices(root, n)[k]].spec_pc(),
                ),
        decreases n,
    {
        if n > 0 {
            self.lemma_owned_indices_wf(root, n - 1);
            let prev = self.owned_indices(root, n - 1);
            let cur = self.owned_indices(root, n);
            if self.spec_owns_pc(root, self.blocks_view()[n - 1].spec_pc()) {
                assert(cur == prev.push(n - 1));
                assert forall|k: int| 0 <= k < cur.len() implies 0 <= #[trigger] cur[k] < n by {
                    if k < prev.len() {
                        assert(cur[k] == prev[k]);
                    } else {
                        assert(cur[k] == n - 1);
                    }
                }
                assert forall|k: int| 0 <= k < cur.len() - 1 implies #[trigger] cur[k] < cur[k
                    + 1] by {
                    assert(cur[k] == prev[k]);
                    if k + 1 < prev.len() {
                        assert(cur[k + 1] == prev[k + 1]);
                    } else {
                        assert(cur[k + 1] == n - 1);
                        assert(prev[k] < n - 1);
                    }
                }
                assert forall|k: int| 0 <= k < cur.len() implies self.spec_owns_pc(
                    root,
                    self.blocks_view()[#[trigger] cur[k]].spec_pc(),
                ) by {
                    if k < prev.len() {
                        assert(cur[k] == prev[k]);
                    } else {
                        assert(cur[k] == n - 1);
                    }
                }
            } else {
                assert(cur == prev);
            }
        }
    }

    /// Every owned block index below `n` appears among the owned
    /// indices.
    pub proof fn lemma_owned_indices_complete(&self, root: usize, n: int)
        requires
            0 <= n <= self.blocks_view().len(),
        ensures
            forall|b2: int|
                0 <= b2 < n && self.spec_owns_pc(
                    root,
                    (#[trigger] self.blocks_view()[b2]).spec_pc(),
                ) ==> self.owned_indices(root, n).contains(b2),
        decreases n,
    {
        if n > 0 {
            self.lemma_owned_indices_complete(root, n - 1);
            let prev = self.owned_indices(root, n - 1);
            let cur = self.owned_indices(root, n);
            assert forall|b2: int|
                0 <= b2 < n && self.spec_owns_pc(
                    root,
                    (#[trigger] self.blocks_view()[b2]).spec_pc(),
                ) implies cur.contains(b2) by {
                if self.spec_owns_pc(root, self.blocks_view()[n - 1].spec_pc()) {
                    assert(cur == prev.push(n - 1));
                    if b2 < n - 1 {
                        let k = choose|k: int| 0 <= k < prev.len() && prev[k] == b2;
                        assert(cur[k] == b2);
                    } else {
                        assert(cur[prev.len() as int] == n - 1);
                    }
                } else {
                    assert(cur == prev);
                    assert(b2 < n - 1 || !self.spec_owns_pc(
                        root,
                        self.blocks_view()[n - 1].spec_pc(),
                    ));
                }
            }
        }
    }

    /// A model-level copy of some block that the given root owns.
    pub open spec fn is_owned_copy(&self, root: usize, b: Block) -> bool {
        exists|i: int|
            0 <= i < self.blocks_view().len() && block_eqv(b, self.blocks_view()[i])
                && self.spec_owns_pc(root, self.blocks_view()[i].spec_pc())
    }

    /// The blocks owned by a given root, in block order (copies, equal
    /// at the model level): every returned block is a copy of an owned
    /// one, and every owned block has a copy in the result.
    #[verifier::rlimit(60)]
    #[verifier::spinoff_prover]
    pub fn get_owned(&self, root: usize) -> (r: Vec<Block>)
        requires
            self.wf(),
        ensures
            forall|k: int| 0 <= k < r@.len() ==> self.is_owned_copy(root, #[trigger] r@[k]),
            forall|b: int|
                0 <= b < self.blocks_view().len() && self.spec_owns_pc(
                    root,
                    (#[trigger] self.blocks_view()[b]).spec_pc(),
                ) ==> exists|k: int|
                    0 <= k < r@.len() && block_eqv(r@[k], self.blocks_view()[b]),
            r@.len() == self.owned_indices(root, self.blocks_view().len() as int).len(),
            forall|k: int|
                0 <= k < r@.len() ==> block_eqv(
                    #[trigger] r@[k],
                    self.blocks_view()[self.owned_indices(
                        root,
                        self.blocks_view().len() as int,
                    )[k]],
                ),
    {
        let blocks = self.blocks.as_ref();
        let mut out: Vec<Block> = Vec::new();
        // The block index each copy came from, tying every copy to its
        // original.
        let mut srcs: Vec<usize> = Vec::new();
        let mut b: usize = 0;
        while b < blocks.len()
            invariant
                self.wf(),
                blocks@ == self.blocks_view(),
                b <= blocks@.len(),
                srcs@.len() == out@.len(),
                srcs@.len() == self.owned_indices(root, b as int).len(),
                forall|k: int|
                    0 <= k < srcs@.len() ==> #[trigger] srcs@[k] as int == self.owned_indices(
                        root,
                        b as int,
                    )[k],
                forall|k: int| #![trigger out@[k]] #![trigger srcs@[k]] 0 <= k < out@.len() ==> {
                    &&& srcs@[k] < blocks@.len()
                    &&& block_eqv(out@[k], blocks@[srcs@[k] as int])
                    &&& self.spec_owns_pc(root, blocks@[srcs@[k] as int].spec_pc())
                },
            decreases blocks@.len() - b,
        {
            let ghost pre_out = out@;
            let ghost pre_srcs = srcs@;
            if self.owns(root, &blocks[b]) {
                let copy = blocks[b].dup();
                proof {
                    assert(block_eqv(copy, blocks@[b as int]));
                    assert(self.owned_indices(root, b + 1) == self.owned_indices(
                        root,
                        b as int,
                    ).push(b as int));
                }
                out.push(copy);
                srcs.push(b);
                proof {
                    assert(out@[pre_out.len() as int] == copy);
                    assert forall|k: int| #![trigger out@[k]] #![trigger srcs@[k]] 0 <= k < out@.len() implies {
                        &&& srcs@[k] < blocks@.len()
                        &&& block_eqv(out@[k], blocks@[srcs@[k] as int])
                        &&& self.spec_owns_pc(root, blocks@[srcs@[k] as int].spec_pc())
                    } by {
                        if k < pre_out.len() {
                            assert(out@[k] == pre_out[k]);
                            assert(srcs@[k] == pre_srcs[k]);
                            assert(block_eqv(pre_out[k], blocks@[pre_srcs[k] as int]));
                        } else {
                            assert(srcs@[k] == b);
                            assert(out@[k] == copy);
                        }
                    }
                }
            } else {
                proof {
                    assert(!self.spec_owns_pc(root, blocks@[b as int].spec_pc()));
                    assert(self.owned_indices(root, b + 1) == self.owned_indices(root, b as int));
                }
            }
            b += 1;
        }
        proof {
            assert forall|k: int| 0 <= k < out@.len() implies self.is_owned_copy(
                root,
                #[trigger] out@[k],
            ) by {
                assert(srcs@[k] < blocks@.len());
                assert(blocks@ == self.blocks_view());
                assert(srcs@[k] < self.blocks_view().len());
                assert(block_eqv(out@[k], self.blocks_view()[srcs@[k] as int]));
                assert(self.spec_owns_pc(root, self.blocks_view()[srcs@[k] as int].spec_pc()));
            }
            let ghost n = self.blocks_view().len() as int;
            self.lemma_owned_indices_complete(root, n);
            assert forall|b2: int|
                0 <= b2 < self.blocks_view().len() && self.spec_owns_pc(
                    root,
                    (#[trigger] self.blocks_view()[b2]).spec_pc(),
                ) implies exists|k: int|
                0 <= k < out@.len() && block_eqv(out@[k], self.blocks_view()[b2]) by {
                assert(self.owned_indices(root, n).contains(b2));
                let k = choose|k: int|
                    0 <= k < self.owned_indices(root, n).len() && self.owned_indices(root, n)[k]
                        == b2;
                assert(srcs@[k] as int == b2);
                assert(block_eqv(out@[k], blocks@[b2]));
                assert(block_eqv(out@[k], self.blocks_view()[b2]));
            }
            self.lemma_owned_indices_wf(root, self.blocks_view().len() as int);
            assert forall|k: int| 0 <= k < out@.len() implies block_eqv(
                #[trigger] out@[k],
                self.blocks_view()[self.owned_indices(root, self.blocks_view().len() as int)[k]],
            ) by {
                assert(srcs@[k] as int == self.owned_indices(
                    root,
                    self.blocks_view().len() as int,
                )[k]);
                assert(block_eqv(out@[k], blocks@[srcs@[k] as int]));
            }
        }
        out
    }

    /// Prune every block to the facts its liveness bits justify.
    pub fn minimise(&mut self)
        ensures
            pruned_blocks(old(self).blocks_view(), final(self).blocks_view()),
    {
        self.blocks.minimise()
    }

    /// Build the control-flow information for one code section: the
    /// external basic-block graph with its dominator and reachability
    /// relations, and the super-block decomposition.  The boolean
    /// reports whether the underlying analyses completed within their
    /// limits (an incomplete graph is tolerated; ownership may then be
    /// conservative).
    pub fn new(
        cid: usize,
        blocksize: usize,
        insns: &Vec<evmil::bytecode::Instruction>,
        precheck: PrecheckPolicy,
        limit: usize,
    ) -> (r: Result<(ControlFlowGraph, bool), Error>)
        ensures
            r matches Ok(p) ==> {
                &&& p.0.wf()
                &&& p.0.spec_cid() == cid
                &&& p.0.roots_view().len() == 0
                &&& contiguous_cover(p.0.blocks_view())
                &&& fixpoint_property(p.0.blocks_view())
                &&& (p.0.blocks_view().len() == 0 <==> (blocksize == 0 || insns@.len() == 0))
            },
            r matches Err(e) ==> (e is Oversized || e is Unsupported || e is UnresolvedBranch
                || e is MissingBlock || e is FixpointOverrun),
    {
        let graph = crate::bridge::build_graph_model(insns, limit);
        let reaches = close_reaches(&graph.successors, graph.node_ends.len());
        let (blocks, complete) = match BlockSequence::from_insns(blocksize, insns, precheck, limit) {
            Ok(p) => p,
            Err(e) => {
                return Err(e);
            },
        };
        let instrs = crate::bridge::convert_instructions(insns);
        let insn_pcs = match crate::block::compute_offsets(&instrs) {
            Ok(o) => o,
            Err(e) => {
                return Err(e);
            },
        };
        let ok = complete && graph.complete;
        let cfg = ControlFlowGraph { cid, graph, reaches, insn_pcs, roots: Vec::new(), blocks };
        Ok((cfg, ok))
    }
}

/// The transitive closure of the successor sets: starting from the
/// direct successors, repeatedly merge the reach set of every reached
/// node until nothing changes (the value one past the last node
/// stands for falling off the end of the code and reaches nothing).
/// The result always contains every direct successor, and only grows
/// by merging reach sets along recorded edges; closure over `n` nodes
/// stabilises within `n` rounds, so the round bound only guards
/// termination.
pub fn close_reaches(succs: &Vec<Vec<usize>>, bound: usize) -> (r: Vec<Vec<usize>>)
    requires
        bound == succs@.len(),
        forall|i: int, k: int|
            0 <= i < succs@.len() && 0 <= k < succs@[i]@.len() ==> succs@[i]@[k] <= bound,
    ensures
        r@.len() == succs@.len(),
        forall|i: int, k: int| 0 <= i < r@.len() && 0 <= k < r@[i]@.len() ==> r@[i]@[k] <= bound,
        forall|i: int| 0 <= i < r@.len() ==> strictly_increasing(r@[i]@),
        forall|i: int, k: int|
            0 <= i < succs@.len() && 0 <= k < succs@[i]@.len() ==> (#[trigger] r@[i]@.contains(
                succs@[i]@[k],
            )),
{
    let n = succs.len();
    // Start from sorted copies of the direct successor sets.
    let mut reach: Vec<Vec<usize>> = Vec::new();
    let mut i: usize = 0;
    while i < n
        invariant
            n == succs@.len(),
            forall|i2: int, k: int|
                0 <= i2 < succs@.len() && 0 <= k < succs@[i2]@.len() ==> succs@[i2]@[k] <= bound,
            i <= n,
            reach@.len() == i,
            forall|i2: int, k: int|
                0 <= i2 < reach@.len() && 0 <= k < reach@[i2]@.len()
                    ==> #[trigger] reach@[i2]@[k] <= bound,
            forall|i2: int| 0 <= i2 < reach@.len() ==> strictly_increasing(reach@[i2]@),
            forall|i9: int, k9: int|
                0 <= i9 < reach@.len() && 0 <= k9 < succs@[i9]@.len()
                    ==> (#[trigger] reach@[i9]@.contains(succs@[i9]@[k9])),
        decreases n - i,
    {
        let mut row: Vec<usize> = Vec::new();
        let src = &succs[i];
        let mut k: usize = 0;
        while k < src.len()
            invariant
                src@ == succs@[i as int]@,
                i < succs@.len(),
                forall|k2: int| 0 <= k2 < src@.len() ==> src@[k2] <= bound,
                k <= src@.len(),
                strictly_increasing(row@),
                forall|k2: int| 0 <= k2 < row@.len() ==> row@[k2] <= bound,
                forall|k2: int| 0 <= k2 < k ==> row@.contains(#[trigger] src@[k2]),
            decreases src@.len() - k,
        {
            let ghost pre_row = row@;
            crate::sorted::insert_unique_usize(&mut row, src[k]);
            proof {
                assert forall|k2: int| 0 <= k2 < row@.len() implies row@[k2] <= bound by {
                    let y = row@[k2];
                    assert(row@.contains(y));
                    if pre_row.contains(y) {
                        let k3 = choose|k3: int| 0 <= k3 < pre_row.len() && pre_row[k3] == y;
                        assert(pre_row[k3] <= bound);
                    } else {
                        assert(y == src@[k as int]);
                    }
                }
            }
            k += 1;
        }
        let ghost pre_reach = reach@;
        reach.push(row);
        proof {
            assert forall|i9: int, k9: int|
                0 <= i9 < reach@.len() && 0 <= k9 < succs@[i9]@.len() implies (
            #[trigger] reach@[i9]@.contains(succs@[i9]@[k9])) by {
                if i9 < pre_reach.len() {
                    assert(reach@[i9] == pre_reach[i9]);
                } else {
                    assert(reach@[i9]@.contains(src@[k9]));
                }
            }
        }
        i += 1;
    }
    // Merge until stable.
    let mut changed = true;
    let mut rounds: usize = 0;
    while changed && rounds < n
        invariant
            n == succs@.len(),
            rounds <= n,
            reach@.len() == n,
            forall|i2: int, k: int|
                0 <= i2 < reach@.len() && 0 <= k < reach@[i2]@.len()
                    ==> #[trigger] reach@[i2]@[k] <= bound,
            forall|i2: int| 0 <= i2 < reach@.len() ==> strictly_increasing(reach@[i2]@),
            forall|i9: int, k9: int|
                0 <= i9 < reach@.len() && 0 <= k9 < succs@[i9]@.len()
                    ==> (#[trigger] reach@[i9]@.contains(succs@[i9]@[k9])),
        decreases n - rounds,
    {
        changed = false;
        let mut i2: usize = 0;
        while i2 < n
            invariant
                n == succs@.len(),
                i2 <= n,
                reach@.len() == n,
                forall|i3: int, k: int|
                    0 <= i3 < reach@.len() && 0 <= k < reach@[i3]@.len()
                        ==> #[trigger] reach@[i3]@[k] <= bound,
                forall|i3: int| 0 <= i3 < reach@.len() ==> strictly_increasing(reach@[i3]@),
            forall|i9: int, k9: int|
                0 <= i9 < reach@.len() && 0 <= k9 < succs@[i9]@.len()
                    ==> (#[trigger] reach@[i9]@.contains(succs@[i9]@[k9])),
            decreases n - i2,
        {
            let row = crate::block::copy_usizes(&reach[i2]);
            proof {
                assert forall|k2: int| 0 <= k2 < row@.len() implies row@[k2] <= bound by {
                    assert(row@[k2] == reach@[i2 as int]@[k2]);
                }
            }
            let mut j: usize = 0;
            while j < row.len()
                invariant
                    n == succs@.len(),
                    i2 < n,
                    forall|k2: int| 0 <= k2 < row@.len() ==> row@[k2] <= bound,
                    j <= row@.len(),
                    reach@.len() == n,
                    forall|i3: int, k: int|
                        0 <= i3 < reach@.len() && 0 <= k < reach@[i3]@.len()
                            ==> #[trigger] reach@[i3]@[k] <= bound,
                    forall|i3: int| 0 <= i3 < reach@.len() ==> strictly_increasing(reach@[i3]@),
            forall|i9: int, k9: int|
                0 <= i9 < reach@.len() && 0 <= k9 < succs@[i9]@.len()
                    ==> (#[trigger] reach@[i9]@.contains(succs@[i9]@[k9])),
                decreases row@.len() - j,
            {
                let tgt = row[j];
                if tgt < n {
                    let hops = crate::block::copy_usizes(&reach[tgt]);
                    let ghost pre = reach@;
                    let grew = merge_row(&mut reach, i2, &hops, bound);
                    if grew {
                        changed = true;
                    }
                    proof {
                        assert forall|i9: int, k9: int|
                            0 <= i9 < reach@.len() && 0 <= k9 < succs@[i9]@.len() implies (
                        #[trigger] reach@[i9]@.contains(succs@[i9]@[k9])) by {
                            assert(pre[i9]@.contains(succs@[i9]@[k9]));
                        }
                    }
                }
                j += 1;
            }
            i2 += 1;
        }
        rounds += 1;
    }
    reach
}

/// Merge one reach set into another row of the table, keeping every
/// row sorted and within bounds.  Returns whether the row grew.
fn merge_row(reach: &mut Vec<Vec<usize>>, dest: usize, hops: &Vec<usize>, bound: usize) -> (r:
    bool)
    requires
        dest < old(reach)@.len(),
        forall|k: int| 0 <= k < hops@.len() ==> hops@[k] <= bound,
        forall|i: int, k: int|
            0 <= i < old(reach)@.len() && 0 <= k < old(reach)@[i]@.len()
                ==> #[trigger] old(reach)@[i]@[k] <= bound,
        forall|i: int| 0 <= i < old(reach)@.len() ==> strictly_increasing(old(reach)@[i]@),
    ensures
        final(reach)@.len() == old(reach)@.len(),
        forall|i: int, k: int|
            0 <= i < final(reach)@.len() && 0 <= k < final(reach)@[i]@.len()
                ==> #[trigger] final(reach)@[i]@[k] <= bound,
        forall|i: int| 0 <= i < final(reach)@.len() ==> strictly_increasing(final(reach)@[i]@),
        forall|i: int, y: usize|
            0 <= i < old(reach)@.len() && old(reach)@[i]@.contains(y)
                ==> (#[trigger] final(reach)@[i]@.contains(y)),
{
    let n = reach.len();
    let mut grew = false;
    let mut x: usize = 0;
    while x < hops.len()
        invariant
            dest < n,
            n == reach@.len(),
            n == old(reach)@.len(),
            forall|k2: int| 0 <= k2 < hops@.len() ==> hops@[k2] <= bound,
            x <= hops@.len(),
            forall|i3: int, k: int|
                0 <= i3 < reach@.len() && 0 <= k < reach@[i3]@.len()
                    ==> #[trigger] reach@[i3]@[k] <= bound,
            forall|i3: int| 0 <= i3 < reach@.len() ==> strictly_increasing(reach@[i3]@),
            forall|i3: int, y: usize|
                0 <= i3 < old(reach)@.len() && old(reach)@[i3]@.contains(y)
                    ==> (#[trigger] reach@[i3]@.contains(y)),
        decreases hops@.len() - x,
    {
        let ghost pre = reach@;
        let before = reach[dest].len();
        let row = &mut reach[dest];
        crate::sorted::insert_unique_usize(row, hops[x]);
        if reach[dest].len() != before {
            grew = true;
        }
        proof {
            assert forall|i3: int, k: int|
                0 <= i3 < reach@.len() && 0 <= k < reach@[i3]@.len()
                    implies #[trigger] reach@[i3]@[k] <= bound by {
                if i3 != dest {
                    assert(reach@[i3] == pre[i3]);
                } else {
                    let y = reach@[i3]@[k];
                    assert(reach@[i3]@.contains(y));
                    if pre[i3]@.contains(y) {
                        let k2 = choose|k2: int| 0 <= k2 < pre[i3]@.len() && pre[i3]@[k2] == y;
                        assert(pre[i3]@[k2] <= bound);
                    } else {
                        assert(y == hops@[x as int]);
                    }
                }
            }
            assert forall|i3: int| 0 <= i3 < reach@.len() implies strictly_increasing(
                reach@[i3]@,
            ) by {
                if i3 != dest {
                    assert(reach@[i3] == pre[i3]);
                }
            }
            assert forall|i3: int, y: usize|
                0 <= i3 < old(reach)@.len() && old(reach)@[i3]@.contains(y) implies (
            #[trigger] reach@[i3]@.contains(y)) by {
                if i3 != dest {
                    assert(reach@[i3] == pre[i3]);
                } else {
                    assert(pre[i3]@.contains(y));
                }
            }
        }
        x += 1;
    }
    grew
}

/// Linear membership test in a plain set of node indices.
fn contains_usize(v: &Vec<usize>, x: usize) -> (r: bool)
    ensures
        r == v@.contains(x),
{
    let mut k: usize = 0;
    while k < v.len()
        invariant
            k <= v@.len(),
            forall|j: int| 0 <= j < k ==> v@[j] != x,
        decreases v@.len() - k,
    {
        if v[k] == x {
            assert(v@[k as int] == x);
            return true;
        }
        k += 1;
    }
    assert(!v@.contains(x));
    false
}

/// A sound control-flow graph carries only sound blocks.
pub proof fn lemma_wf_blocks(cfg: &ControlFlowGraph)
    requires
        cfg.wf(),
    ensures
        all_blocks_wf(cfg.blocks_view()),
{
}

/// Ownership exclusivity: two distinct roots never own the same block,
/// given the two facts that hold of dominator and reachability
/// analyses over a rooted graph — the dominators of a node are totally
/// ordered by dominance, and a dominator of a reachable node reaches
/// it.
pub proof fn lemma_ownership_exclusive(
    cfg: &ControlFlowGraph,
    pc: usize,
    r1: usize,
    r2: usize,
    k1: int,
    k2: int,
)
    requires
        0 <= k1 < cfg.roots_view().len() && cfg.roots_view()[k1] == r1,
        0 <= k2 < cfg.roots_view().len() && cfg.roots_view()[k2] == r2,
        r1 != r2,
        // Dominators of one node form a chain.
        cfg.spec_dominates(r1, pc) && cfg.spec_dominates(r2, pc) ==> cfg.spec_dominates(r1, r2)
            || cfg.spec_dominates(r2, r1),
        // A dominator of a reached node reaches it.
        cfg.spec_dominates(r2, pc) ==> cfg.spec_reaches(r2, pc),
        cfg.spec_dominates(r1, pc) ==> cfg.spec_reaches(r1, pc),
    ensures
        !(cfg.spec_owns_pc(r1, pc) && cfg.spec_owns_pc(r2, pc)),
{
    if cfg.spec_owns_pc(r1, pc) && cfg.spec_owns_pc(r2, pc) {
        if cfg.spec_dominates(r1, r2) {
            assert(!(cfg.roots_view()[k2] != r1 && cfg.spec_dominates(r1, cfg.roots_view()[k2])
                && cfg.spec_reaches(cfg.roots_view()[k2], pc)));
        } else {
            assert(cfg.spec_dominates(r2, r1));
            assert(!(cfg.roots_view()[k1] != r2 && cfg.spec_dominates(r2, cfg.roots_view()[k1])
                && cfg.spec_reaches(cfg.roots_view()[k1], pc)));
        }
    }
}

} // verus!
