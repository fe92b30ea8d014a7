//! Grouping: one block group per designated root plus a synthetic
//! remainder group, and the inter-group dependency edges derived from
//! direct control-flow touches.

use vstd::prelude::*;
use crate::block::{block_eqv, block_wf, lemma_block_eqv_wf, Block};
use crate::cfg::ControlFlowGraph;
use crate::sorted::strictly_increasing;

verus! {

/// A root designation: a method name for an entry offset of one code
/// section.
pub struct RootSpec {
    pub cid: usize,
    pub pc: usize,
    pub name: String,
}

/// A named group of blocks plus the indices of the groups it depends
/// on.
pub struct BlockGroup {
    pub id: usize,
    pub name: String,
    pub blocks: Vec<Block>,
    pub deps: Vec<usize>,
}

/// Whether any block of `from` touches any block of `to` through a
/// direct control-flow edge.
pub open spec fn spec_touches_any(
    cfg: &ControlFlowGraph,
    from: Seq<Block>,
    to: Seq<Block>,
) -> bool {
    exists|f: int, t: int|
        0 <= f < from.len() && 0 <= t < to.len() && cfg.spec_touches(
            from[f].spec_pc(),
            to[t].spec_pc(),
        )
}

/// Check whether any block from one set touches any block of another.
pub fn touches_any(cfg: &ControlFlowGraph, from: &[Block], to: &[Block]) -> (r: bool)
    requires
        cfg.wf(),
    ensures
        r == spec_touches_any(cfg, from@, to@),
{
    let mut f: usize = 0;
    while f < from.len()
        invariant
            cfg.wf(),
            f <= from@.len(),
            forall|f2: int, t2: int|
                0 <= f2 < f && 0 <= t2 < to@.len() ==> !cfg.spec_touches(
                    (#[trigger] from@[f2]).spec_pc(),
                    (#[trigger] to@[t2]).spec_pc(),
                ),
        decreases from@.len() - f,
    {
        let mut t: usize = 0;
        while t < to.len()
            invariant
                cfg.wf(),
                f < from@.len(),
                t <= to@.len(),
                forall|t2: int|
                    0 <= t2 < t ==> !cfg.spec_touches(
                        from@[f as int].spec_pc(),
                        (#[trigger] to@[t2]).spec_pc(),
                    ),
        decreases to@.len() - t,
        {
            if cfg.touches(from[f].pc(), to[t].pc()) {
                proof {
                    assert(cfg.spec_touches(from@[f as int].spec_pc(), to@[t as int].spec_pc()));
                }
                return true;
            }
            t += 1;
        }
        f += 1;
    }
    false
}

/// The dependencies of the `i`th group: every other group holding a
/// block directly reachable from one of this group's blocks.
pub fn dependencies(i: usize, groups: &Vec<BlockGroup>, cfg: &ControlFlowGraph) -> (r: Vec<usize>)
    requires
        cfg.wf(),
        i < groups@.len(),
    ensures
        strictly_increasing(r@),
        forall|j: usize|
            r@.contains(j) <==> (j < groups@.len() && j != i && spec_touches_any(
                cfg,
                groups@[i as int].blocks@,
                groups@[j as int].blocks@,
            )),
{
    let mut deps: Vec<usize> = Vec::new();
    let mut j: usize = 0;
    while j < groups.len()
        invariant
            cfg.wf(),
            i < groups@.len(),
            j <= groups@.len(),
            strictly_increasing(deps@),
            forall|j2: int| 0 <= j2 < deps@.len() ==> deps@[j2] < j,
            forall|j2: usize|
                deps@.contains(j2) <==> (j2 < j && j2 != i && spec_touches_any(
                    cfg,
                    groups@[i as int].blocks@,
                    groups@[j2 as int].blocks@,
                )),
        decreases groups@.len() - j,
    {
        let ghost pre = deps@;
        if j != i && touches_any(cfg, groups[i].blocks.as_slice(), groups[j].blocks.as_slice()) {
            deps.push(j);
            proof {
                assert(deps@ == pre.push(j));
                assert forall|j2: usize| deps@.contains(j2) implies (j2 < j + 1 && j2 != i
                    && spec_touches_any(
                    cfg,
                    groups@[i as int].blocks@,
                    groups@[j2 as int].blocks@,
                )) by {
                    let p = choose|p: int| 0 <= p < deps@.len() && deps@[p] == j2;
                    if p < pre.len() {
                        assert(pre[p] == j2);
                        assert(pre.contains(j2));
                    }
                }
                assert forall|j2: usize|
                    j2 < j + 1 && j2 != i && spec_touches_any(
                        cfg,
                        groups@[i as int].blocks@,
                        groups@[j2 as int].blocks@,
                    ) implies deps@.contains(j2) by {
                    if j2 < j {
                        assert(pre.contains(j2));
                        let p = choose|p: int| 0 <= p < pre.len() && pre[p] == j2;
                        assert(deps@[p] == j2);
                    } else {
                        assert(deps@[pre.len() as int] == j2);
                    }
                }
            }
        } else {
            proof {
                assert forall|j2: usize| deps@.contains(j2) implies (j2 < j + 1 && j2 != i
                    && spec_touches_any(
                    cfg,
                    groups@[i as int].blocks@,
                    groups@[j2 as int].blocks@,
                )) by {}
            }
        }
        j += 1;
    }
    deps
}

/// Whether some group already holds a block starting at the given
/// offset.
pub open spec fn spec_pc_in_groups(groups: Seq<BlockGroup>, pc: usize) -> bool {
    exists|g: int, k: int|
        0 <= g < groups.len() && 0 <= k < groups[g].blocks@.len() && groups[g].blocks@[k].spec_pc()
            == pc
}

fn pc_in_groups(groups: &Vec<BlockGroup>, pc: usize) -> (r: bool)
    ensures
        r == spec_pc_in_groups(groups@, pc),
{
    let mut g: usize = 0;
    while g < groups.len()
        invariant
            g <= groups@.len(),
            forall|g2: int, k2: int|
                0 <= g2 < g && 0 <= k2 < (#[trigger] groups@[g2]).blocks@.len()
                    ==> (#[trigger] groups@[g2].blocks@[k2]).spec_pc() != pc,
        decreases groups@.len() - g,
    {
        let blocks = groups[g].blocks.as_slice();
        let mut k: usize = 0;
        while k < blocks.len()
            invariant
                g < groups@.len(),
                blocks@ == groups@[g as int].blocks@,
                k <= blocks@.len(),
                forall|k2: int|
                    0 <= k2 < k ==> (#[trigger] blocks@[k2]).spec_pc() != pc,
            decreases blocks@.len() - k,
        {
            if blocks[k].pc() == pc {
                proof {
                    assert(groups@[g as int].blocks@[k as int].spec_pc() == pc);
                }
                return true;
            }
            k += 1;
        }
        g += 1;
    }
    false
}

/// A model-level copy of some block of the section that no group has
/// claimed.
pub open spec fn is_leftover_copy(
    cfg: &ControlFlowGraph,
    groups: Seq<BlockGroup>,
    b: Block,
) -> bool {
    exists|i: int|
        0 <= i < cfg.blocks_view().len() && block_eqv(b, cfg.blocks_view()[i])
            && !spec_pc_in_groups(groups, cfg.blocks_view()[i].spec_pc())
}

/// The blocks not allocated to any group: they are not dominated by a
/// designated root (other than through an inner root that reaches
/// them), and go into a catch-all utility group.
/// The indices below `n` of the blocks claimed by no group, in
/// ascending order.
pub open spec fn leftover_indices(
    cfg: &ControlFlowGraph,
    groups: Seq<BlockGroup>,
    n: int,
) -> Seq<int>
    decreases n,
{
    if n <= 0 {
        Seq::empty()
    } else if !spec_pc_in_groups(groups, cfg.blocks_view()[n - 1].spec_pc()) {
        leftover_indices(cfg, groups, n - 1).push(n - 1)
    } else {
        leftover_indices(cfg, groups, n - 1)
    }
}

/// The leftover indices are in bounds, strictly ascending, and each
/// names a block claimed by no group.
pub proof fn lemma_leftover_indices_wf(cfg: &ControlFlowGraph, groups: Seq<BlockGroup>, n: int)
    requires
        0 <= n <= cfg.blocks_view().len(),
    ensures
        forall|k: int|
            0 <= k < leftover_indices(cfg, groups, n).len() ==> 0 <= #[trigger] leftover_indices(
                cfg,
                groups,
                n,
            )[k] < n,
        forall|k: int|
            0 <= k < leftover_indices(cfg, groups, n).len() - 1 ==> #[trigger] leftover_indices(
                cfg,
                groups,
                n,
            )[k] < leftover_indices(cfg, groups, n)[k + 1],
        forall|k: int|
            0 <= k < leftover_indices(cfg, groups, n).len() ==> !spec_pc_in_groups(
                groups,
                cfg.blocks_view()[#[trigger] leftover_indices(cfg, groups, n)[k]].spec_pc(),
            ),
    decreases n,
{
    if n > 0 {
        lemma_leftover_indices_wf(cfg, groups, n - 1);
        let prev = leftover_indices(cfg, groups, n - 1);
        let cur = leftover_indices(cfg, groups, n);
        if !spec_pc_in_groups(groups, cfg.blocks_view()[n - 1].spec_pc()) {
            assert(cur == prev.push(n - 1));
            assert forall|k: int| 0 <= k < cur.len() implies 0 <= #[trigger] cur[k] < n by {
                if k < prev.len() {
                    assert(cur[k] == prev[k]);
                } else {
                    assert(cur[k] == n - 1);
                }
            }
            assert forall|k: int| 0 <= k < cur.len() - 1 implies #[trigger] cur[k] < cur[k
                + 1] by {
                assert(cur[k] == prev[k]);
                if k + 1 < prev.len() {
                    assert(cur[k + 1] == prev[k + 1]);
                } else {
                    assert(cur[k + 1] == n - 1);
                    assert(prev[k] < n - 1);
                }
            }
            assert forall|k: int| 0 <= k < cur.len() implies !spec_pc_in_groups(
                groups,
                cfg.blocks_view()[#[trigger] cur[k]].spec_pc(),
            ) by {
                if k < prev.len() {
                    assert(cur[k] == prev[k]);
                } else {
                    assert(cur[k] == n - 1);
                }
            }
        } else {
            assert(cur == prev);
        }
    }
}

/// Every unclaimed block index below `n` appears among the leftover
/// indices.
pub proof fn lemma_leftover_indices_complete(
    cfg: &ControlFlowGraph,
    groups: Seq<BlockGroup>,
    n: int,
)
    requires
        0 <= n <= cfg.blocks_view().len(),
    ensures
        forall|b2: int|
            0 <= b2 < n && !spec_pc_in_groups(
                groups,
                (#[trigger] cfg.blocks_view()[b2]).spec_pc(),
            ) ==> leftover_indices(cfg, groups, n).contains(b2),
    decreases n,
{
    if n > 0 {
        lemma_leftover_indices_complete(cfg, groups, n - 1);
        let prev = leftover_indices(cfg, groups, n - 1);
        let cur = leftover_indices(cfg, groups, n);
        assert forall|b2: int|
            0 <= b2 < n && !spec_pc_in_groups(
                groups,
                (#[trigger] cfg.blocks_view()[b2]).spec_pc(),
            ) implies cur.contains(b2) by {
            if !spec_pc_in_groups(groups, cfg.blocks_view()[n - 1].spec_pc()) {
                assert(cur == prev.push(n - 1));
                if b2 < n - 1 {
                    let k = choose|k: int| 0 <= k < prev.len() && prev[k] == b2;
                    assert(cur[k] == b2);
                } else {
                    assert(cur[prev.len() as int] == n - 1);
                }
            } else {
                assert(cur == prev);
                assert(b2 < n - 1 || spec_pc_in_groups(
                    groups,
                    cfg.blocks_view()[n - 1].spec_pc(),
                ));
            }
        }
    }
}

pub fn determine_remainder(groups: &Vec<BlockGroup>, cfg: &ControlFlowGraph) -> (r: Vec<Block>)
    requires
        cfg.wf(),
    ensures
        forall|k: int|
            0 <= k < r@.len() ==> is_leftover_copy(cfg, groups@, #[trigger] r@[k]),
        forall|b: int|
            0 <= b < cfg.blocks_view().len() && !spec_pc_in_groups(
                groups@,
                (#[trigger] cfg.blocks_view()[b]).spec_pc(),
            ) ==> exists|k: int| 0 <= k < r@.len() && block_eqv(r@[k], cfg.blocks_view()[b]),
        r@.len() == leftover_indices(cfg, groups@, cfg.blocks_view().len() as int).len(),
        forall|k: int|
            0 <= k < r@.len() ==> block_eqv(
                #[trigger] r@[k],
                cfg.blocks_view()[leftover_indices(
                    cfg,
                    groups@,
                    cfg.blocks_view().len() as int,
                )[k]],
            ),
{
    let blocks = cfg.blocks();
    let mut rem: Vec<Block> = Vec::new();
    let mut srcs: Vec<usize> = Vec::new();
    let mut b: usize = 0;
    while b < blocks.len()
        invariant
            cfg.wf(),
            blocks@ == cfg.blocks_view(),
            b <= blocks@.len(),
            srcs@.len() == rem@.len(),
            srcs@.len() == leftover_indices(cfg, groups@, b as int).len(),
            forall|k: int|
                0 <= k < srcs@.len() ==> #[trigger] srcs@[k] as int == leftover_indices(
                    cfg,
                    groups@,
                    b as int,
                )[k],
            forall|k: int| #![trigger rem@[k]] #![trigger srcs@[k]] 0 <= k < rem@.len() ==> {
                &&& srcs@[k] < blocks@.len()
                &&& block_eqv(rem@[k], blocks@[srcs@[k] as int])
                &&& !spec_pc_in_groups(groups@, blocks@[srcs@[k] as int].spec_pc())
            },
        decreases blocks@.len() - b,
    {
        let ghost pre_rem = rem@;
        let ghost pre_srcs = srcs@;
        if !pc_in_groups(groups, blocks[b].pc()) {
            let copy = blocks[b].dup();
            proof {
                assert(block_eqv(copy, blocks@[b as int]));
                assert(leftover_indices(cfg, groups@, b + 1) == leftover_indices(
                    cfg,
                    groups@,
                    b as int,
                ).push(b as int));
            }
            rem.push(copy);
            srcs.push(b);
            proof {
                assert(rem@[pre_rem.len() as int] == copy);
                assert forall|k: int|
                    #![trigger rem@[k]]
                    #![trigger srcs@[k]]
                    0 <= k < rem@.len() implies {
                    &&& srcs@[k] < blocks@.len()
                    &&& block_eqv(rem@[k], blocks@[srcs@[k] as int])
                    &&& !spec_pc_in_groups(groups@, blocks@[srcs@[k] as int].spec_pc())
                } by {
                    if k < pre_rem.len() {
                        assert(rem@[k] == pre_rem[k]);
                        assert(srcs@[k] == pre_srcs[k]);
                        assert(block_eqv(pre_rem[k], blocks@[pre_srcs[k] as int]));
                    } else {
                        assert(srcs@[k] == b);
                        assert(rem@[k] == copy);
                    }
                }
            }
        } else {
            proof {
                assert(spec_pc_in_groups(groups@, blocks@[b as int].spec_pc()));
                assert(leftover_indices(cfg, groups@, b + 1) == leftover_indices(
                    cfg,
                    groups@,
                    b as int,
                ));
            }
        }
        b += 1;
    }
    proof {
        assert forall|k: int| 0 <= k < rem@.len() implies is_leftover_copy(
            cfg,
            groups@,
            #[trigger] rem@[k],
        ) by {
            assert(srcs@[k] < blocks@.len());
            assert(blocks@ == cfg.blocks_view());
            assert(block_eqv(rem@[k], cfg.blocks_view()[srcs@[k] as int]));
            assert(!spec_pc_in_groups(groups@, cfg.blocks_view()[srcs@[k] as int].spec_pc()));
        }
        let ghost n = cfg.blocks_view().len() as int;
        lemma_leftover_indices_wf(cfg, groups@, n);
        lemma_leftover_indices_complete(cfg, groups@, n);
        assert forall|b2: int|
            0 <= b2 < cfg.blocks_view().len() && !spec_pc_in_groups(
                groups@,
                (#[trigger] cfg.blocks_view()[b2]).spec_pc(),
            ) implies exists|k: int|
            0 <= k < rem@.len() && block_eqv(rem@[k], cfg.blocks_view()[b2]) by {
            assert(leftover_indices(cfg, groups@, n).contains(b2));
            let k = choose|k: int|
                0 <= k < leftover_indices(cfg, groups@, n).len() && leftover_indices(
                    cfg,
                    groups@,
                    n,
                )[k] == b2;
            assert(srcs@[k] as int == b2);
            assert(block_eqv(rem@[k], blocks@[b2]));
        }
        assert forall|k: int| 0 <= k < rem@.len() implies block_eqv(
            #[trigger] rem@[k],
            cfg.blocks_view()[leftover_indices(cfg, groups@, n)[k]],
        ) by {
            assert(srcs@[k] as int == leftover_indices(cfg, groups@, n)[k]);
            assert(block_eqv(rem@[k], blocks@[srcs@[k] as int]));
        }
    }
    rem
}

/// The designated name for a root of one code section: the first
/// matching entry's name, or empty when none is designated.
pub open spec fn spec_root_name(roots: Seq<RootSpec>, cid: usize, pc: usize) -> Seq<char>
    decreases roots.len(),
{
    if roots.len() == 0 {
        Seq::empty()
    } else if roots[0].cid == cid && roots[0].pc == pc {
        roots[0].name@
    } else {
        spec_root_name(roots.drop_first(), cid, pc)
    }
}

/// Look up the designated name for a root of one code section; a root
/// without a designation keeps an empty name.
fn name_of_root(roots: &Vec<RootSpec>, cid: usize, pc: usize) -> (r: String)
    ensures
        r@ == spec_root_name(roots@, cid, pc),
{
    let n = roots.len();
    proof {
        assert(roots@.skip(0) =~= roots@);
    }
    let mut k: usize = 0;
    while k < n
        invariant
            n == roots@.len(),
            k <= n,
            spec_root_name(roots@, cid, pc) == spec_root_name(roots@.skip(k as int), cid, pc),
        decreases n - k,
    {
        proof {
            assert(roots@.skip(k as int)[0] == roots@[k as int]);
            assert(roots@.skip(k as int).drop_first() =~= roots@.skip(k + 1));
        }
        if roots[k].cid == cid && roots[k].pc == pc {
            return roots[k].name.clone();
        }
        k += 1;
    }
    proof {
        assert(roots@.skip(n as int).len() == 0);
    }
    String::new()
}

/// Split one section's blocks into one group per root, in root order,
/// plus a utility group for the remainder when it is non-empty, and
/// compute every group's dependencies.
/// Whether a group's block list holds a copy of the graph block at
/// index `b2`.
pub open spec fn group_covers(cfg: &ControlFlowGraph, blocks: Seq<Block>, b2: int) -> bool {
    exists|k: int| 0 <= k < blocks.len() && block_eqv(blocks[k], cfg.blocks_view()[b2])
}

#[verifier::rlimit(60)]
#[verifier::spinoff_prover]
pub fn split(roots: &Vec<RootSpec>, cfg: &ControlFlowGraph) -> (r: Vec<BlockGroup>)
    requires
        cfg.wf(),
    ensures
        forall|g: int|
            0 <= g < r@.len() ==> strictly_increasing((#[trigger] r@[g]).deps@),
        forall|g: int, k: int|
            0 <= g < r@.len() && 0 <= k < (#[trigger] r@[g]).blocks@.len() ==> block_wf(
                #[trigger] r@[g].blocks@[k],
            ),
        cfg.blocks_view().len() == 0 ==> r@.len() == 0,
        cfg.blocks_view().len() > 0 ==> r@.len() == cfg.roots_view().len() || r@.len()
            == cfg.roots_view().len() + 1,
        forall|g: int| 0 <= g < r@.len() ==> (#[trigger] r@[g]).id == cfg.spec_cid(),
        forall|g: int|
            0 <= g < r@.len() && g < cfg.roots_view().len() ==> (#[trigger] r@[g]).name@
                == spec_root_name(roots@, cfg.spec_cid(), cfg.roots_view()[g]),
        forall|g: int, k: int|
            0 <= g < cfg.roots_view().len() && g < r@.len() && 0 <= k < (
            #[trigger] r@[g]).blocks@.len() ==> cfg.is_owned_copy(
                cfg.roots_view()[g],
                #[trigger] r@[g].blocks@[k],
            ),
        r@.len() == cfg.roots_view().len() + 1 ==> r@[r@.len() - 1].name@ == "util"@,
        forall|g: int, b2: int|
            #![trigger r@[g], cfg.blocks_view()[b2]]
            0 <= g < cfg.roots_view().len() && g < r@.len() && 0 <= b2 < cfg.blocks_view().len()
                && cfg.spec_owns_pc(cfg.roots_view()[g], cfg.blocks_view()[b2].spec_pc())
                ==> group_covers(cfg, r@[g].blocks@, b2),
{
    let cid = cfg.cid();
    let mut groups: Vec<BlockGroup> = Vec::new();
    // An empty instruction stream has no blocks, and yields no groups.
    if cfg.blocks().len() == 0 {
        return groups;
    }
    let root_list = cfg.roots();
    let mut k: usize = 0;
    while k < root_list.len()
        invariant
            cfg.wf(),
            cid == cfg.spec_cid(),
            root_list@ == cfg.roots_view(),
            k <= root_list@.len(),
            groups@.len() == k,
            forall|g: int, k2: int|
                0 <= g < groups@.len() && 0 <= k2 < (#[trigger] groups@[g]).blocks@.len()
                    ==> block_wf(#[trigger] groups@[g].blocks@[k2]),
            forall|g: int| 0 <= g < groups@.len() ==> (#[trigger] groups@[g]).id == cid,
            forall|g: int|
                0 <= g < groups@.len() ==> (#[trigger] groups@[g]).name@ == spec_root_name(
                    roots@,
                    cid,
                    cfg.roots_view()[g],
                ),
            forall|g: int, k2: int|
                0 <= g < groups@.len() && 0 <= k2 < (#[trigger] groups@[g]).blocks@.len()
                    ==> cfg.is_owned_copy(cfg.roots_view()[g], #[trigger] groups@[g].blocks@[k2]),
            forall|g: int, b2: int|
                #![trigger groups@[g], cfg.blocks_view()[b2]]
                0 <= g < groups@.len() && 0 <= b2 < cfg.blocks_view().len() && cfg.spec_owns_pc(
                    cfg.roots_view()[g],
                    cfg.blocks_view()[b2].spec_pc(),
                ) ==> group_covers(cfg, groups@[g].blocks@, b2),
        decreases root_list@.len() - k,
    {
        let pc = root_list[k];
        let blocks = cfg.get_owned(pc);
        proof {
            assert forall|k2: int| 0 <= k2 < blocks@.len() implies block_wf(
                #[trigger] blocks@[k2],
            ) by {
                assert(cfg.is_owned_copy(pc, blocks@[k2]));
                let i = choose|i: int|
                    0 <= i < cfg.blocks_view().len() && block_eqv(blocks@[k2], cfg.blocks_view()[i])
                        && cfg.spec_owns_pc(pc, cfg.blocks_view()[i].spec_pc());
                crate::cfg::lemma_wf_blocks(cfg);
                assert(block_wf(cfg.blocks_view()[i]));
                assert(block_eqv(cfg.blocks_view()[i], blocks@[k2])) by {
                    lemma_block_eqv_sym(blocks@[k2], cfg.blocks_view()[i]);
                }
                lemma_block_eqv_wf(cfg.blocks_view()[i], blocks@[k2]);
            }
        }
        let name = name_of_root(roots, cid, pc);
        let ghost pre = groups@;
        let ghost blks = blocks@;
        groups.push(BlockGroup { id: cid, name, blocks, deps: Vec::new() });
        proof {
            assert forall|g: int, b2: int|
                #![trigger groups@[g], cfg.blocks_view()[b2]]
                0 <= g < groups@.len() && 0 <= b2 < cfg.blocks_view().len() && cfg.spec_owns_pc(
                    cfg.roots_view()[g],
                    cfg.blocks_view()[b2].spec_pc(),
                ) implies group_covers(cfg, groups@[g].blocks@, b2) by {
                if g < pre.len() {
                    assert(groups@[g] == pre[g]);
                    assert(group_covers(cfg, pre[g].blocks@, b2));
                } else {
                    assert(groups@[g].blocks@ == blks);
                    assert(cfg.roots_view()[g] == pc);
                    let k2 = choose|k2: int|
                        0 <= k2 < blks.len() && block_eqv(blks[k2], cfg.blocks_view()[b2]);
                    assert(group_covers(cfg, blks, b2));
                }
            }
        }
        k += 1;
    }
    // Add the utility group when any block is left over.
    let remainder = determine_remainder(&groups, cfg);
    proof {
        assert forall|k2: int| 0 <= k2 < remainder@.len() implies block_wf(
            #[trigger] remainder@[k2],
        ) by {
            assert(is_leftover_copy(cfg, groups@, remainder@[k2]));
            let i = choose|i: int|
                0 <= i < cfg.blocks_view().len() && block_eqv(remainder@[k2], cfg.blocks_view()[i])
                    && !spec_pc_in_groups(groups@, cfg.blocks_view()[i].spec_pc());
            crate::cfg::lemma_wf_blocks(cfg);
            assert(block_wf(cfg.blocks_view()[i]));
            lemma_block_eqv_sym(remainder@[k2], cfg.blocks_view()[i]);
            lemma_block_eqv_wf(cfg.blocks_view()[i], remainder@[k2]);
        }
    }
    let ghost rem_blocks = remainder@;
    let ghost pre_groups = groups@;
    if remainder.len() > 0 {
        groups.push(
            BlockGroup {
                id: cid,
                name: String::from_str("util"),
                blocks: remainder,
                deps: Vec::new(),
            },
        );
        proof {
            assert forall|g: int, k2: int|
                0 <= g < groups@.len() && 0 <= k2 < (#[trigger] groups@[g]).blocks@.len()
                    implies block_wf(#[trigger] groups@[g].blocks@[k2]) by {
                if g < pre_groups.len() {
                    assert(groups@[g] == pre_groups[g]);
                    assert(block_wf(pre_groups[g].blocks@[k2]));
                } else {
                    assert(groups@[g].blocks@ == rem_blocks);
                    assert(block_wf(rem_blocks[k2]));
                }
            }
            assert forall|g: int, k2: int|
                0 <= g < cfg.roots_view().len() && g < groups@.len() && 0 <= k2 < (
                #[trigger] groups@[g]).blocks@.len() implies cfg.is_owned_copy(
                cfg.roots_view()[g],
                #[trigger] groups@[g].blocks@[k2],
            ) by {
                assert(groups@[g] == pre_groups[g]);
            }
            assert forall|g: int, b2: int|
                #![trigger groups@[g], cfg.blocks_view()[b2]]
                0 <= g < pre_groups.len() && 0 <= b2 < cfg.blocks_view().len()
                    && cfg.spec_owns_pc(
                    cfg.roots_view()[g],
                    cfg.blocks_view()[b2].spec_pc(),
                ) implies group_covers(cfg, groups@[g].blocks@, b2) by {
                assert(groups@[g] == pre_groups[g]);
                assert(group_covers(cfg, pre_groups[g].blocks@, b2));
            }
        }
    }
    proof {
        assert(groups@.len() == cfg.roots_view().len() || groups@.len() == cfg.roots_view().len()
            + 1);
    }
    // Determine every group's dependencies.
    let n = groups.len();
    let mut out: Vec<BlockGroup> = Vec::new();
    let mut i: usize = 0;
    while i < n
        invariant
            cfg.wf(),
            cid == cfg.spec_cid(),
            n == groups@.len(),
            n == cfg.roots_view().len() || n == cfg.roots_view().len() + 1,
            i <= n,
            out@.len() == i,
            forall|g: int, k2: int|
                0 <= g < groups@.len() && 0 <= k2 < (#[trigger] groups@[g]).blocks@.len()
                    ==> block_wf(#[trigger] groups@[g].blocks@[k2]),
            forall|g: int| 0 <= g < groups@.len() ==> (#[trigger] groups@[g]).id == cid,
            forall|g: int|
                0 <= g < groups@.len() && g < cfg.roots_view().len()
                    ==> (#[trigger] groups@[g]).name@ == spec_root_name(
                    roots@,
                    cid,
                    cfg.roots_view()[g],
                ),
            n == cfg.roots_view().len() + 1 ==> groups@[n - 1].name@ == "util"@,
            forall|g: int, k2: int|
                0 <= g < cfg.roots_view().len() && g < groups@.len() && 0 <= k2 < (
                #[trigger] groups@[g]).blocks@.len() ==> cfg.is_owned_copy(
                    cfg.roots_view()[g],
                    #[trigger] groups@[g].blocks@[k2],
                ),
            forall|g: int|
                0 <= g < out@.len() ==> strictly_increasing((#[trigger] out@[g]).deps@),
            forall|g: int, k2: int|
                0 <= g < out@.len() && 0 <= k2 < (#[trigger] out@[g]).blocks@.len() ==> block_wf(
                    #[trigger] out@[g].blocks@[k2],
                ),
            forall|g: int| 0 <= g < out@.len() ==> (#[trigger] out@[g]).id == cid,
            forall|g: int|
                0 <= g < out@.len() && g < cfg.roots_view().len() ==> (#[trigger] out@[g]).name@
                    == spec_root_name(roots@, cid, cfg.roots_view()[g]),
            forall|g: int|
                0 <= g < out@.len() && g == cfg.roots_view().len() ==> (#[trigger] out@[g]).name@
                    == "util"@,
            forall|g: int, k2: int|
                0 <= g < cfg.roots_view().len() && g < out@.len() && 0 <= k2 < (
                #[trigger] out@[g]).blocks@.len() ==> cfg.is_owned_copy(
                    cfg.roots_view()[g],
                    #[trigger] out@[g].blocks@[k2],
                ),
            forall|g: int, b2: int|
                #![trigger groups@[g], cfg.blocks_view()[b2]]
                0 <= g < cfg.roots_view().len() && g < groups@.len() && 0 <= b2
                    < cfg.blocks_view().len() && cfg.spec_owns_pc(
                    cfg.roots_view()[g],
                    cfg.blocks_view()[b2].spec_pc(),
                ) ==> group_covers(cfg, groups@[g].blocks@, b2),
            forall|g: int, b2: int|
                #![trigger out@[g], cfg.blocks_view()[b2]]
                0 <= g < cfg.roots_view().len() && g < out@.len() && 0 <= b2
                    < cfg.blocks_view().len() && cfg.spec_owns_pc(
                    cfg.roots_view()[g],
                    cfg.blocks_view()[b2].spec_pc(),
                ) ==> group_covers(cfg, out@[g].blocks@, b2),
        decreases n - i,
    {
        let deps = dependencies(i, &groups, cfg);
        let g = &groups[i];
        let blocks = copy_blocks(g.blocks.as_slice());
        proof {
            assert forall|k2: int| 0 <= k2 < blocks@.len() implies block_wf(
                #[trigger] blocks@[k2],
            ) by {
                assert(block_eqv(blocks@[k2], g.blocks@[k2]));
                assert(block_wf(groups@[i as int].blocks@[k2]));
                lemma_block_eqv_sym(blocks@[k2], g.blocks@[k2]);
                lemma_block_eqv_wf(g.blocks@[k2], blocks@[k2]);
            }
            assert forall|k2: int|
                i < cfg.roots_view().len() && 0 <= k2 < blocks@.len() implies cfg.is_owned_copy(
                cfg.roots_view()[i as int],
                #[trigger] blocks@[k2],
            ) by {
                assert(cfg.is_owned_copy(
                    cfg.roots_view()[i as int],
                    groups@[i as int].blocks@[k2],
                ));
                let b2 = choose|b2: int|
                    0 <= b2 < cfg.blocks_view().len() && block_eqv(
                        groups@[i as int].blocks@[k2],
                        cfg.blocks_view()[b2],
                    ) && cfg.spec_owns_pc(
                        cfg.roots_view()[i as int],
                        cfg.blocks_view()[b2].spec_pc(),
                    );
                lemma_block_eqv_trans(blocks@[k2], g.blocks@[k2], cfg.blocks_view()[b2]);
            }
            assert forall|b2: int|
                i < cfg.roots_view().len() && 0 <= b2 < cfg.blocks_view().len()
                    && cfg.spec_owns_pc(
                    cfg.roots_view()[i as int],
                    (#[trigger] cfg.blocks_view()[b2]).spec_pc(),
                ) implies group_covers(cfg, blocks@, b2) by {
                assert(group_covers(cfg, groups@[i as int].blocks@, b2));
                let k2 = choose|k2: int|
                    0 <= k2 < groups@[i as int].blocks@.len() && block_eqv(
                        groups@[i as int].blocks@[k2],
                        cfg.blocks_view()[b2],
                    );
                assert(block_eqv(blocks@[k2], g.blocks@[k2]));
                lemma_block_eqv_trans(blocks@[k2], g.blocks@[k2], cfg.blocks_view()[b2]);
                assert(0 <= k2 < blocks@.len() && block_eqv(blocks@[k2], cfg.blocks_view()[b2]));
            }
        }
        let ghost pre_out = out@;
        let ghost blks2 = blocks@;
        out.push(BlockGroup { id: g.id, name: g.name.clone(), blocks, deps });
        proof {
            assert forall|g2: int, b2: int|
                #![trigger out@[g2], cfg.blocks_view()[b2]]
                0 <= g2 < cfg.roots_view().len() && g2 < out@.len() && 0 <= b2
                    < cfg.blocks_view().len() && cfg.spec_owns_pc(
                    cfg.roots_view()[g2],
                    cfg.blocks_view()[b2].spec_pc(),
                ) implies group_covers(cfg, out@[g2].blocks@, b2) by {
                if g2 < pre_out.len() {
                    assert(out@[g2] == pre_out[g2]);
                    assert(group_covers(cfg, pre_out[g2].blocks@, b2));
                } else {
                    assert(out@[g2].blocks@ == blks2);
                    assert(group_covers(cfg, blks2, b2));
                }
            }
        }
        i += 1;
    }
    out
}

/// Copy a slice of blocks, preserving each model.
pub fn copy_blocks(blocks: &[Block]) -> (r: Vec<Block>)
    ensures
        r@.len() == blocks@.len(),
        forall|k: int| 0 <= k < r@.len() ==> block_eqv(#[trigger] r@[k], blocks@[k]),
{
    let mut out: Vec<Block> = Vec::new();
    let mut k: usize = 0;
    while k < blocks.len()
        invariant
            k <= blocks@.len(),
            out@.len() == k,
            forall|j: int| 0 <= j < k ==> block_eqv(#[trigger] out@[j], blocks@[j]),
        decreases blocks@.len() - k,
    {
        out.push(blocks[k].dup());
        k += 1;
    }
    out
}

/// Build the groups of every code section.
pub fn group(roots: &Vec<RootSpec>, cfgs: &Vec<ControlFlowGraph>) -> (r: Vec<BlockGroup>)
    requires
        forall|c: int| 0 <= c < cfgs@.len() ==> (#[trigger] cfgs@[c]).wf(),
    ensures
        forall|g: int|
            0 <= g < r@.len() ==> strictly_increasing((#[trigger] r@[g]).deps@),
        forall|g: int, k: int|
            0 <= g < r@.len() && 0 <= k < (#[trigger] r@[g]).blocks@.len() ==> block_wf(
                #[trigger] r@[g].blocks@[k],
            ),
        cfgs@.len() == 0 ==> r@.len() == 0,
{
    let mut out: Vec<BlockGroup> = Vec::new();
    let mut c: usize = 0;
    while c < cfgs.len()
        invariant
            forall|c2: int| 0 <= c2 < cfgs@.len() ==> (#[trigger] cfgs@[c2]).wf(),
            c <= cfgs@.len(),
            cfgs@.len() == 0 ==> out@.len() == 0,
            forall|g: int|
                0 <= g < out@.len() ==> strictly_increasing((#[trigger] out@[g]).deps@),
            forall|g: int, k2: int|
                0 <= g < out@.len() && 0 <= k2 < (#[trigger] out@[g]).blocks@.len() ==> block_wf(
                    #[trigger] out@[g].blocks@[k2],
                ),
        decreases cfgs@.len() - c,
    {
        let gs = split(roots, &cfgs[c]);
        let mut k: usize = 0;
        while k < gs.len()
            invariant
                k <= gs@.len(),
                forall|g: int|
                    0 <= g < gs@.len() ==> strictly_increasing((#[trigger] gs@[g]).deps@),
                forall|g: int, k2: int|
                    0 <= g < gs@.len() && 0 <= k2 < (#[trigger] gs@[g]).blocks@.len()
                        ==> block_wf(#[trigger] gs@[g].blocks@[k2]),
                forall|g: int|
                    0 <= g < out@.len() ==> strictly_increasing((#[trigger] out@[g]).deps@),
                forall|g: int, k2: int|
                    0 <= g < out@.len() && 0 <= k2 < (#[trigger] out@[g]).blocks@.len()
                        ==> block_wf(#[trigger] out@[g].blocks@[k2]),
            decreases gs@.len() - k,
        {
            let g = &gs[k];
            let blocks = copy_blocks(g.blocks.as_slice());
            proof {
                assert forall|k2: int| 0 <= k2 < blocks@.len() implies block_wf(
                    #[trigger] blocks@[k2],
                ) by {
                    assert(block_eqv(blocks@[k2], g.blocks@[k2]));
                    assert(block_wf(gs@[k as int].blocks@[k2]));
                    lemma_block_eqv_sym(blocks@[k2], g.blocks@[k2]);
                    lemma_block_eqv_wf(g.blocks@[k2], blocks@[k2]);
                }
            }
            let deps = crate::block::copy_usizes(&g.deps);
            out.push(BlockGroup { id: g.id, name: g.name.clone(), blocks, deps });
            k += 1;
        }
        c += 1;
    }
    out
}

/// Model equality of instructions is transitive.
pub proof fn lemma_instr_eqv_trans(a: crate::instr::Instr, b: crate::instr::Instr, c: crate::instr::Instr)
    requires
        crate::instr::instr_eqv(a, b),
        crate::instr::instr_eqv(b, c),
    ensures
        crate::instr::instr_eqv(a, c),
{
}

/// Model equality of bytecodes is transitive.
pub proof fn lemma_bytecode_eqv_trans(
    a: crate::block::Bytecode,
    b: crate::block::Bytecode,
    c: crate::block::Bytecode,
)
    requires
        crate::block::bytecode_eqv(a, b),
        crate::block::bytecode_eqv(b, c),
    ensures
        crate::block::bytecode_eqv(a, c),
{
    match (a, b, c) {
        (
            crate::block::Bytecode::Unit(x),
            crate::block::Bytecode::Unit(y),
            crate::block::Bytecode::Unit(z),
        ) => {
            lemma_instr_eqv_trans(x, y, z);
        },
        _ => {},
    }
}

/// Model equality of blocks is transitive.
pub proof fn lemma_block_eqv_trans(a: Block, b: Block, c: Block)
    requires
        block_eqv(a, b),
        block_eqv(b, c),
    ensures
        block_eqv(a, c),
{
    assert forall|j: int|
        0 <= j < a.bytecodes_seq().len() implies crate::block::bytecode_eqv(
        a.bytecodes_seq()[j],
        c.bytecodes_seq()[j],
    ) by {
        lemma_bytecode_eqv_trans(
            a.bytecodes_seq()[j],
            b.bytecodes_seq()[j],
            c.bytecodes_seq()[j],
        );
    }
}

/// Model equality of blocks is symmetric.
pub proof fn lemma_block_eqv_sym(a: Block, b: Block)
    requires
        block_eqv(a, b),
    ensures
        block_eqv(b, a),
{
    assert forall|j: int|
        0 <= j < b.bytecodes_seq().len() implies crate::block::bytecode_eqv(
        b.bytecodes_seq()[j],
        a.bytecodes_seq()[j],
    ) by {
        lemma_bytecode_eqv_sym(a.bytecodes_seq()[j], b.bytecodes_seq()[j]);
    }
}

/// Model equality of bytecodes is symmetric.
pub proof fn lemma_bytecode_eqv_sym(a: crate::block::Bytecode, b: crate::block::Bytecode)
    requires
        crate::block::bytecode_eqv(a, b),
    ensures
        crate::block::bytecode_eqv(b, a),
{
    match (a, b) {
        (crate::block::Bytecode::Unit(x), crate::block::Bytecode::Unit(y)) => {
            lemma_instr_eqv_sym(x, y);
        },
        _ => {},
    }
}

/// Model equality of instructions is symmetric.
pub proof fn lemma_instr_eqv_sym(a: crate::instr::Instr, b: crate::instr::Instr)
    requires
        crate::instr::instr_eqv(a, b),
    ensures
        crate::instr::instr_eqv(b, a),
{
}

} // verus!
