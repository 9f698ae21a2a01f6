//! What a plan's windows are.

use crate::dict::Block;
use crate::pursuit::MpConfig;
use crate::window::{guard_for, longest, WindowPlan};
use vstd::arithmetic::div_mod::{lemma_div_pos_is_pos, lemma_fundamental_div_mod, lemma_mod_bound};
use vstd::prelude::*;

verus! {

/// A window's core follows the one before it, and its samples go on for the guard past its core, or to the
/// end of the signal where that comes first: no atom that starts in the core is cut, and nothing further is
/// held.
pub proof fn law_a_window_goes_one_guard_past_its_core(
    plan: WindowPlan,
    total: int,
    max_atoms: int,
    w: int,
)
    requires
        plan.core_len >= 1,
        0 <= w,
        w * plan.core_len < total,
    ensures
        ({
            let (offset, core, end, share) = plan.window_at(total, max_atoms, w);
            &&& offset == w * plan.core_len
            &&& 1 <= core <= plan.core_len
            &&& core < plan.core_len ==> offset + core == total
            &&& offset + core <= end <= total
            &&& end - (offset + core) <= plan.guard_len
            &&& end < total ==> end - (offset + core) == plan.guard_len
        }),
{
}

/// Atoms are shared out by duration: a window gets as many of the budget as its core is of the signal, in
/// whole atoms, and at least one.
pub proof fn law_atoms_are_shared_by_duration(plan: WindowPlan, total: int, max_atoms: int, w: int)
    requires
        plan.core_len >= 1,
        0 <= max_atoms,
        0 <= w,
        w * plan.core_len < total,
    ensures
        ({
            let (offset, core, end, share) = plan.window_at(total, max_atoms, w);
            &&& share >= 1
            &&& share > 1 ==> share * total <= max_atoms * core
            &&& max_atoms * core < (share + 1) * total
        }),
{
    let (offset, core, end, share) = plan.window_at(total, max_atoms, w);
    let all = max_atoms * core;
    assert(0 <= w * plan.core_len) by (nonlinear_arith)
        requires
            0 <= w,
            plan.core_len >= 1,
    ;
    assert(0 <= all) by (nonlinear_arith)
        requires
            0 <= max_atoms,
            0 <= core,
            all == max_atoms * core,
    ;
    lemma_fundamental_div_mod(all, total);
    lemma_mod_bound(all, total);
    lemma_div_pos_is_pos(all, total);
    let q = all / total;
    assert(total * q == q * total && (q + 1) * total == q * total + total) by (nonlinear_arith);
    assert(share >= q);
    assert((q + 1) * total <= (share + 1) * total) by (nonlinear_arith)
        requires
            share >= q,
            total >= 0,
    ;
}

proof fn lemma_longest(blocks: Seq<Block>, n: int, i: int)
    requires
        0 <= i < n <= blocks.len(),
    ensures
        blocks[i].support() <= longest(blocks, n),
    decreases n,
{
    if i < n - 1 {
        lemma_longest(blocks, n - 1, i);
    }
}

proof fn lemma_longest_is_one(blocks: Seq<Block>, n: int)
    requires
        0 <= n <= blocks.len(),
    ensures
        longest(blocks, n) == 0 || exists|i: int|
            0 <= i < n && (#[trigger] blocks[i]).support() == longest(blocks, n),
    decreases n,
{
    if n > 0 {
        lemma_longest_is_one(blocks, n - 1);
        assert(blocks[n - 1].support() == longest(blocks, n) || longest(blocks, n) == longest(
            blocks,
            n - 1,
        ));
    }
}

/// The guard is as long as the longest atom a run can produce, a block's or a refined one's, and no longer
/// than the signal.
pub proof fn law_the_guard_is_the_longest_atom(
    blocks: Seq<Block>,
    signal_len: int,
    cfg: MpConfig,
    i: int,
)
    requires
        0 <= signal_len,
        0 <= i < blocks.len(),
    ensures
        ({
            let guard = guard_for(blocks, signal_len, cfg);
            &&& guard <= signal_len
            &&& guard == signal_len || blocks[i].support() <= guard
            &&& guard == signal_len || (cfg.refine.enabled ==> cfg.refine.max_atom_samples <= guard)
            &&& {
                ||| guard == signal_len
                ||| guard == 0
                ||| cfg.refine.enabled && guard == cfg.refine.max_atom_samples
                ||| exists|j: int|
                    0 <= j < blocks.len() && (#[trigger] blocks[j]).support() == guard
            }
        }),
{
    lemma_longest(blocks, blocks.len() as int, i);
    lemma_longest_is_one(blocks, blocks.len() as int);
}

} // verus!
