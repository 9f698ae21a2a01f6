//! Which frames are promoted.

use crate::cand::{
    distinct_blocks, indexable, is_max, law_selection, lemma_support_of, peak, seed_at, selection, FrameView,
    Seed,
};
use vstd::prelude::*;

verus! {

/// A seed is a frame of one of the tables that stands out from its neighbours: stronger than the one before,
/// and no weaker than the one after. It starts as many hops in as its frame's number, with the energy and the
/// bin the table holds for it.
pub open spec fn stands_out(ts: Seq<FrameView>, t: int, s: Seed) -> bool {
    let n = s.frame as int;
    &&& 0 <= t < ts.len() && 0 <= n < ts[t].seen.len()
    &&& s.block == ts[t].block
    &&& s.onset == n * ts[t].hop
    &&& s.energy == ts[t].seen[n]
    &&& s.bin == ts[t].bin[n]
    &&& s.energy.finite()
    &&& n > 0 ==> ts[t].seen[n - 1].less(s.energy)
    &&& n + 1 < ts[t].seen.len() ==> ts[t].seen[n + 1].at_most(s.energy)
}

/// Every seed stands out in its table.
pub proof fn law_every_seed_stands_out(ts: Seq<FrameView>, k: int, i: int)
    requires
        indexable(ts),
        distinct_blocks(ts),
        k >= 0,
        0 <= i < selection(ts, k).len(),
        forall|t: int, n: int|
            0 <= t < ts.len() && 0 <= n < (#[trigger] ts[t]).seen.len() ==> 0 <= #[trigger] frame_at(
                ts[t],
                n,
            ) <= usize::MAX,
    ensures
        selection(ts, k).len() <= k,
        exists|t: int| #[trigger] stands_out(ts, t, selection(ts, k)[i]),
{
    law_selection(ts, k);
    let s = selection(ts, k)[i];
    assert(is_max(ts, s));
    let (t, n) = choose|t: int, n: int|
        0 <= t < ts.len() && #[trigger] peak(ts[t], n) && s == seed_at(ts[t], n);
    assert(0 <= frame_at(ts[t], n) <= usize::MAX);
    assert(ts[t].seen.len() <= usize::MAX);
    assert(stands_out(ts, t, s));
}

/// Where a table's frame starts.
pub open spec fn frame_at(v: FrameView, n: int) -> int {
    n * v.hop
}

/// Seeds come strongest first, and two of one block are at least half a support apart: closer ones are the
/// same event, and only the stronger is kept.
pub proof fn law_seeds_of_a_block_are_half_a_support_apart(
    ts: Seq<FrameView>,
    k: int,
    t: int,
    i: int,
    j: int,
)
    requires
        indexable(ts),
        distinct_blocks(ts),
        k >= 0,
        0 <= t < ts.len(),
        0 <= i < j < selection(ts, k).len(),
    ensures
        selection(ts, k)[j].energy.total() <= selection(ts, k)[i].energy.total(),
        selection(ts, k)[i].block == ts[t].block && selection(ts, k)[j].block == ts[t].block ==> {
            let (a, b) = (selection(ts, k)[i].onset, selection(ts, k)[j].onset);
            2 * (a - b) >= ts[t].support_len || 2 * (b - a) >= ts[t].support_len
        },
{
    law_selection(ts, k);
    lemma_support_of(ts, t);
    let r = selection(ts, k);
    assert(!crate::cand::crowds(ts, r[i], r[j]));
    assert(crate::cand::before(r[i], r[j]));
}

/// No frame that stands out is left out but for a stronger seed of its block less than half a support away,
/// or because there are enough and every one of them is no weaker.
pub proof fn law_a_frame_is_left_out_only_for_a_stronger(ts: Seq<FrameView>, k: int, t: int, n: int)
    requires
        indexable(ts),
        distinct_blocks(ts),
        k >= 1,
        0 <= t < ts.len(),
        peak(ts[t], n),
    ensures
        ({
            let (r, s) = (selection(ts, k), seed_at(ts[t], n));
            ||| r.contains(s)
            ||| exists|i: int|
                {
                    &&& 0 <= i < r.len()
                    &&& (#[trigger] r[i]).block == ts[t].block
                    &&& s.energy.total() <= r[i].energy.total()
                    &&& 2 * (r[i].onset - s.onset) < ts[t].support_len
                    &&& 2 * (s.onset - r[i].onset) < ts[t].support_len
                }
            ||| r.len() == k && s.energy.total() <= r.last().energy.total()
        }),
{
    law_selection(ts, k);
    lemma_support_of(ts, t);
    let (r, s) = (selection(ts, k), seed_at(ts[t], n));
    assert(is_max(ts, s));
    if !r.contains(s) && !crate::cand::beyond(r, k, s) {
        assert(crate::cand::shadowed(ts, r, s));
        let i = choose|i: int|
            0 <= i < r.len() && crate::cand::before(#[trigger] r[i], s) && crate::cand::crowds(ts, r[i], s);
        assert(s.energy.total() <= r[i].energy.total());
        assert(r[i].block == ts[t].block);
    }
}

} // verus!
