//! Decomposing a long signal a window at a time.
//!
//! The pursuit's working set grows linearly in the signal with a constant the *dictionary* sets, so a
//! signal too large to analyse at once is cut into windows and the tables sized to one. Each window
//! owns a core and carries a guard past it; the pursuit selects only from the core, and an atom
//! starting in the core is fully inside the window. A signal that fits the budget is a single window.

use crate::dict::{Block, Dictionary};
use crate::ieee::{Double, Single};
use crate::mp::counted;
use crate::pursuit::{MpConfig, Selection};
use crate::reals::Reals;
use vstd::arithmetic::div_mod::{
    lemma_div_is_ordered, lemma_fundamental_div_mod, lemma_fundamental_div_mod_converse,
};
use vstd::prelude::*;

verus! {

/// Bytes of frame table one frame costs: an energy, a bin and a flag.
pub const FRAME_TABLE_BYTES: usize = 13;

/// How a signal too large to analyse at once is cut into windows.
#[derive(Clone, Copy, Debug, PartialEq, Eq, Structural)]
pub struct WindowPlan {
    /// Samples each window is responsible for selecting atoms in.
    pub core_len: usize,
    /// Samples carried past the core so a core atom is scored on its whole support.
    pub guard_len: usize,
    pub count: usize,
    /// Frame-table bytes one input sample costs, from the dictionary's own hops.
    pub bytes_per_sample: Double,
    /// Whether `core_len` had to exceed what was asked for to stay above the guard floor.
    pub over_budget: bool,
}

/// One window of a plan.
#[derive(Clone, Copy, Debug, PartialEq, Eq, Structural)]
pub struct Window {
    /// First sample of the core.
    pub offset: usize,
    /// Samples in the core.
    pub core: usize,
    /// One past the last sample of the guard.
    pub end: usize,
    /// The window's share of the atom budget.
    pub max_atoms: usize,
}

/// The longest support among the first `n` blocks.
pub open spec fn longest(blocks: Seq<Block>, n: int) -> int
    decreases n,
{
    if n <= 0 {
        0
    } else {
        let rest = longest(blocks, n - 1);
        if blocks[n - 1].support() > rest {
            blocks[n - 1].support()
        } else {
            rest
        }
    }
}

pub open spec fn least(a: int, b: int) -> int {
    if a <= b {
        a
    } else {
        b
    }
}

pub open spec fn most(a: int, b: int) -> int {
    if a >= b {
        a
    } else {
        b
    }
}

/// The longest atom a run can produce, within the signal.
pub open spec fn guard_for(blocks: Seq<Block>, signal_len: int, cfg: MpConfig) -> int {
    let block = longest(blocks, blocks.len() as int);
    least(
        if cfg.refine.enabled {
            most(block, cfg.refine.max_atom_samples as int)
        } else {
            block
        },
        signal_len,
    )
}

/// The windows of core `core` it takes to cover `n` samples.
pub open spec fn windows_for(n: int, core: int) -> int {
    if n <= 0 {
        0
    } else {
        (n - 1) / core + 1
    }
}

/// Frame-table bytes one input sample costs the first `n` blocks.
pub open spec fn density<R: Reals>(r: &R, blocks: Seq<Block>, n: int) -> Double
    decreases n,
{
    if n <= 0 {
        (Double { bits: 0x8000_0000_0000_0000 })
    } else {
        r.plus_of(
            density(r, blocks, n - 1),
            r.over_of(r.count_of(FRAME_TABLE_BYTES), r.count_of(blocks[n - 1].hop)),
        )
    }
}

/// The samples of frame table a budget holds.
pub open spec fn affordable<R: Reals>(r: &R, budget_bytes: usize, bytes_per_sample: Double) -> usize {
    r.whole_of(r.over_of(r.count_of(budget_bytes), bytes_per_sample.larger((Double { bits: 0x0010_0000_0000_0000 }))))
}

/// How a signal of `signal_len` samples is cut under a frame-table budget, or with the core forced.
pub open spec fn planned<R: Reals>(
    r: &R,
    dict: Dictionary,
    signal_len: int,
    cfg: MpConfig,
    budget_bytes: usize,
    forced_core: Option<usize>,
    plan: WindowPlan,
) -> bool {
    let bytes = density(r, dict.blocks@, dict.blocks@.len() as int);
    let guard = guard_for(dict.blocks@, signal_len, cfg);
    let wanted = match forced_core {
        Some(c) => c as int,
        None => most(affordable(r, budget_bytes, bytes) - guard, 0),
    };
    let core = least(most(wanted, most(4 * guard, 1)), most(signal_len, 1));
    &&& plan.guard_len == guard
    &&& plan.core_len == core
    &&& plan.over_budget == (core < signal_len && core > wanted)
    &&& plan.count == most(windows_for(signal_len, core), 1)
    &&& plan.bytes_per_sample == bytes
}

impl WindowPlan {
    /// Size the windows for `signal_len` samples under a frame-table budget.
    ///
    /// `forced_core` overrides the budget, for a run that must be reproducible across machines. A core
    /// shorter than four guards is not worth cutting, and wins over both; the plan then says so.
    pub fn new<R: Reals>(
        r: &R,
        dict: &Dictionary,
        signal_len: usize,
        cfg: &MpConfig,
        budget_bytes: usize,
        forced_core: Option<usize>,
    ) -> (answer: WindowPlan)
        requires
            r.repeatable(),
        ensures
            planned(r, *dict, signal_len as int, *cfg, budget_bytes, forced_core, answer),
            answer.core_len >= 1,
    {
        let mut bytes_per_sample = (Double { bits: 0x8000_0000_0000_0000 });
        let mut longest_block: usize = 0;
        let mut b: usize = 0;
        while b < dict.blocks.len()
            invariant
                r.repeatable(),
                b <= dict.blocks@.len(),
                longest_block == longest(dict.blocks@, b as int),
                bytes_per_sample == density(r, dict.blocks@, b as int),
            decreases dict.blocks@.len() - b,
        {
            let len: usize = dict.blocks[b].support_len();
            if len > longest_block {
                longest_block = len;
            }
            bytes_per_sample = r.plus(
                bytes_per_sample,
                r.over(r.count(FRAME_TABLE_BYTES), r.count(dict.blocks[b].hop)),
            );
            b += 1;
        }
        let held: usize = r.whole(
            r.over(r.count(budget_bytes), bytes_per_sample.max((Double { bits: 0x0010_0000_0000_0000 }))),
        );
        let reach: usize = if cfg.refine.enabled && cfg.refine.max_atom_samples > longest_block {
            cfg.refine.max_atom_samples
        } else {
            longest_block
        };
        let guard_len: usize = if reach < signal_len {
            reach
        } else {
            signal_len
        };
        let wanted: usize = match forced_core {
            Some(c) => c,
            None => if held >= guard_len {
                held - guard_len
            } else {
                0
            },
        };
        let floor: usize = if guard_len == 0 {
            1
        } else if guard_len <= usize::MAX / 4 {
            4 * guard_len
        } else {
            usize::MAX
        };
        let asked: usize = if wanted > floor {
            wanted
        } else {
            floor
        };
        let all: usize = if signal_len >= 1 {
            signal_len
        } else {
            1
        };
        let core_len: usize = if asked < all {
            asked
        } else {
            all
        };
        let over_budget = core_len < signal_len && core_len > wanted;
        proof {
            assert(signal_len >= 1 ==> 0 <= (signal_len - 1) / (core_len as int) <= signal_len - 1)
                by (nonlinear_arith)
                requires
                    core_len >= 1,
            ;
        }
        let count: usize = if signal_len == 0 {
            1
        } else {
            (signal_len - 1) / core_len + 1
        };
        WindowPlan { core_len, guard_len, count, bytes_per_sample, over_budget }
    }

    /// Frame-table bytes one window costs.
    pub fn window_bytes<R: Reals>(&self, r: &R) -> (answer: Double)
        requires
            r.repeatable(),
            self.core_len + self.guard_len <= usize::MAX,
        ensures
            answer == r.times_of(
                r.count_of((self.core_len + self.guard_len) as usize),
                self.bytes_per_sample,
            ),
    {
        r.times(r.count(self.core_len + self.guard_len), self.bytes_per_sample)
    }

    /// Window number `w` of a signal of `total` samples sharing `max_atoms`.
    pub open spec fn window_at(self, total: int, max_atoms: int, w: int) -> (int, int, int, int) {
        let offset = w * self.core_len;
        let core = least(self.core_len as int, total - offset);
        (
            offset,
            core,
            least(offset + core + self.guard_len, total),
            most(max_atoms * core / total, 1),
        )
    }

    /// The windows, in order.
    ///
    /// A plan of one window is the whole signal with the whole budget. Otherwise the atom budget is
    /// shared out by duration, at least one atom to a window.
    pub fn windows(&self, total: usize, max_atoms: usize) -> (r: Vec<Window>)
        requires
            self.core_len >= 1,
        ensures
            self.count <= 1 ==> r@ == seq![Window { offset: 0, core: total, end: total, max_atoms }],
            self.count > 1 ==> r@.len() == windows_for(total as int, self.core_len as int),
            self.count > 1 ==> forall|w: int|
                0 <= w < r@.len() ==> {
                    &&& (
                        #[trigger] r@[w].offset as int,
                        r@[w].core as int,
                        r@[w].end as int,
                        r@[w].max_atoms as int,
                    ) == self.window_at(total as int, max_atoms as int, w)
                    &&& 0 < r@[w].core <= self.core_len
                    &&& r@[w].offset + r@[w].core <= r@[w].end <= total
                },
    {
        let mut out: Vec<Window> = Vec::new();
        if self.count <= 1 {
            out.push(Window { offset: 0, core: total, end: total, max_atoms });
            proof {
                assert(out@ =~= seq![Window { offset: 0, core: total, end: total, max_atoms }]);
            }
            return out;
        }
        let mut offset: usize = 0;
        assert(0 * self.core_len == 0) by (nonlinear_arith);
        while offset < total
            invariant
                offset <= total,
                self.core_len >= 1,
                offset < total ==> offset == out@.len() * self.core_len,
                out@.len() + windows_for(total - offset, self.core_len as int) == windows_for(
                    total as int,
                    self.core_len as int,
                ),
                forall|w: int|
                    0 <= w < out@.len() ==> {
                        &&& (
                            #[trigger] out@[w].offset as int,
                            out@[w].core as int,
                            out@[w].end as int,
                            out@[w].max_atoms as int,
                        ) == self.window_at(total as int, max_atoms as int, w)
                        &&& 0 < out@[w].core <= self.core_len
                        &&& out@[w].offset + out@[w].core <= out@[w].end <= total
                    },
            decreases total - offset,
        {
            let left: usize = total - offset;
            let core: usize = if self.core_len < left {
                self.core_len
            } else {
                left
            };
            let after: usize = offset + core;
            let end: usize = if self.guard_len < total - after {
                after + self.guard_len
            } else {
                total
            };
            proof {
                lemma_share(max_atoms as int, core as int, total as int);
                assert(max_atoms as int * core as int <= usize::MAX * usize::MAX) by (nonlinear_arith)
                    requires
                        max_atoms <= usize::MAX,
                        core <= usize::MAX,
                ;
            }
            let share: u128 = max_atoms as u128 * core as u128 / total as u128;
            let share: usize = if share >= 1 {
                share as usize
            } else {
                1
            };
            let ghost n = out@.len() as int;
            out.push(Window { offset, core, end, max_atoms: share });
            proof {
                lemma_windows_step(left as int, self.core_len as int);
                assert((n + 1) * self.core_len == n * self.core_len + self.core_len)
                    by (nonlinear_arith);
            }
            offset = after;
        }
        out
    }
}

/// A window's share of the budget fits where the budget does.
proof fn lemma_share(max_atoms: int, core: int, total: int)
    requires
        0 <= max_atoms,
        0 <= core <= total,
        total >= 1,
    ensures
        0 <= max_atoms * core / total <= max_atoms,
{
    assert(0 <= max_atoms * core <= max_atoms * total) by (nonlinear_arith)
        requires
            0 <= max_atoms,
            0 <= core <= total,
    ;
    lemma_div_is_ordered(max_atoms * core, max_atoms * total, total);
    assert(max_atoms * total / total == max_atoms) by (nonlinear_arith)
        requires
            total >= 1,
    ;
    assert(0 <= max_atoms * core / total) by (nonlinear_arith)
        requires
            0 <= max_atoms * core,
            total >= 1,
    ;
}

/// Some samples take some window.
proof fn lemma_windows_left(n: int, core: int)
    requires
        core >= 1,
        n >= 1,
    ensures
        windows_for(n, core) >= 1,
{
    assert((n - 1) / core >= 0) by (nonlinear_arith)
        requires
            core >= 1,
            n >= 1,
    ;
}

/// Taking one core off leaves one window fewer.
proof fn lemma_windows_step(left: int, core: int)
    requires
        core >= 1,
        left >= 1,
    ensures
        windows_for(left - least(core, left), core) == windows_for(left, core) - 1,
{
    if left <= core {
        lemma_fundamental_div_mod_converse(left - 1, core, 0, left - 1);
    } else {
        assert((left - 1) / core == (left - core - 1) / core + 1) by (nonlinear_arith)
            requires
                core >= 1,
        ;
    }
}

/// The windows' cores are the signal, end to end: every sample is in the core of exactly one window.
pub proof fn law_cores_partition_the_signal(total: int, core_len: int, t: int)
    requires
        core_len >= 1,
        0 <= t < total,
    ensures
        exists|w: int|
            0 <= w < windows_for(total, core_len) && #[trigger] owns(total, core_len, w, t),
        forall|v: int, w: int| #[trigger]
            owns(total, core_len, v, t) && #[trigger] owns(total, core_len, w, t) ==> v == w,
{
    let w = t / core_len;
    lemma_fundamental_div_mod(t, core_len);
    assert(w * core_len == core_len * w) by (nonlinear_arith);
    assert(w >= 0) by (nonlinear_arith)
        requires
            w == t / core_len,
            t >= 0,
            core_len >= 1,
    ;
    lemma_div_is_ordered(t, total - 1, core_len);
    assert((w + 1) * core_len == w * core_len + core_len) by (nonlinear_arith);
    assert(owns(total, core_len, w, t));
    assert forall|v: int, w: int| #[trigger]
        owns(total, core_len, v, t) && #[trigger] owns(total, core_len, w, t) implies v == w by {
        if v < w {
            assert((v + 1) * core_len <= w * core_len) by (nonlinear_arith)
                requires
                    v + 1 <= w,
                    core_len >= 1,
            ;
            assert((v + 1) * core_len == v * core_len + core_len) by (nonlinear_arith);
        } else if w < v {
            assert((w + 1) * core_len <= v * core_len) by (nonlinear_arith)
                requires
                    w + 1 <= v,
                    core_len >= 1,
            ;
            assert((w + 1) * core_len == w * core_len + core_len) by (nonlinear_arith);
        }
    }
}

/// Sample `t` is in the core of window `w`.
pub open spec fn owns(total: int, core_len: int, w: int, t: int) -> bool {
    w * core_len <= t < w * core_len + least(core_len, total - w * core_len)
}

/// An atom no longer than the guard that starts in a window's core lies inside that window, or runs
/// off the end of the signal itself.
pub proof fn law_core_atoms_fit_their_window(
    plan: WindowPlan,
    total: int,
    max_atoms: int,
    w: int,
    t: int,
    len: int,
)
    requires
        plan.core_len >= 1,
        0 <= t < total,
        owns(total, plan.core_len as int, w, t),
        0 <= len <= plan.guard_len,
    ensures
        t + len <= plan.window_at(total, max_atoms, w).2 || plan.window_at(total, max_atoms, w).2
            == total,
{
}

/// The atoms the first `n` windows may select.
pub open spec fn shares(windows: Seq<Window>, n: int) -> int
    decreases n,
{
    if n <= 0 {
        0
    } else {
        shares(windows, n - 1) + windows[n - 1].max_atoms
    }
}

/// Shared out by duration, the budget still bounds the whole run, wherever every window's share is at
/// least an atom.
pub proof fn law_shares_stay_in_budget(
    plan: WindowPlan,
    windows: Seq<Window>,
    total: int,
    max_atoms: int,
)
    requires
        plan.core_len >= 1,
        total >= 1,
        max_atoms >= 0,
        windows.len() == windows_for(total, plan.core_len as int),
        forall|w: int|
            0 <= w < windows.len() ==> (
                #[trigger] windows[w].offset as int,
                windows[w].core as int,
                windows[w].end as int,
                windows[w].max_atoms as int,
            ) == plan.window_at(total, max_atoms, w),
        forall|w: int|
            0 <= w < windows.len() ==> max_atoms * (#[trigger] windows[w]).core >= total,
    ensures
        shares(windows, windows.len() as int) <= max_atoms,
{
    lemma_windows_left(total, plan.core_len as int);
    lemma_shares(plan, windows, total, max_atoms, windows.len() as int);
    let n = windows.len() as int;
    let last = windows[n - 1];
    lemma_fundamental_div_mod(total - 1, plan.core_len as int);
    let core = plan.core_len as int;
    let q = (total - 1) / core;
    assert(q * core == core * q) by (nonlinear_arith);
    assert(last.offset + last.core == total) by {
        assert(last.offset == (n - 1) * plan.core_len);
        assert((n - 1) * plan.core_len == q * core);
    }
    let s = shares(windows, n);
    assert(s <= max_atoms) by (nonlinear_arith)
        requires
            s * total <= max_atoms * total,
            total >= 1,
    ;
}

proof fn lemma_shares(plan: WindowPlan, windows: Seq<Window>, total: int, max_atoms: int, n: int)
    requires
        plan.core_len >= 1,
        total >= 1,
        max_atoms >= 0,
        1 <= n <= windows.len(),
        forall|w: int|
            0 <= w < windows.len() ==> (
                #[trigger] windows[w].offset as int,
                windows[w].core as int,
                windows[w].end as int,
                windows[w].max_atoms as int,
            ) == plan.window_at(total, max_atoms, w),
        forall|w: int|
            0 <= w < windows.len() ==> max_atoms * (#[trigger] windows[w]).core >= total,
    ensures
        shares(windows, n) * total <= max_atoms * (windows[n - 1].offset + windows[n - 1].core),
    decreases n,
{
    let w = windows[n - 1];
    assert((w.offset as int, w.core as int, w.end as int, w.max_atoms as int) == plan.window_at(
        total,
        max_atoms,
        n - 1,
    ));
    assert(max_atoms * w.core >= total);
    let share = max_atoms * w.core / total;
    lemma_fundamental_div_mod(max_atoms * w.core, total);
    assert(share * total <= max_atoms * w.core) by (nonlinear_arith)
        requires
            max_atoms * w.core == total * share + (max_atoms * w.core) % total,
            0 <= (max_atoms * w.core) % total,
    ;
    assert(share >= 1) by (nonlinear_arith)
        requires
            max_atoms * w.core == total * share + (max_atoms * w.core) % total,
            (max_atoms * w.core) % total < total,
            max_atoms * w.core >= total,
            total >= 1,
    ;
    assert(w.max_atoms == share);
    if n == 1 {
        assert(shares(windows, 1) == share) by {
            assert(shares(windows, 0) == 0);
        }
        assert(max_atoms * (w.offset + w.core) >= max_atoms * w.core) by (nonlinear_arith)
            requires
                max_atoms >= 0,
                w.offset >= 0,
        ;
    } else {
        lemma_shares(plan, windows, total, max_atoms, n - 1);
        let p = windows[n - 2];
        assert((p.offset as int, p.core as int, p.end as int, p.max_atoms as int)
            == plan.window_at(total, max_atoms, n - 2));
        assert((n - 1) * plan.core_len == (n - 2) * plan.core_len + plan.core_len)
            by (nonlinear_arith);
        assert(p.offset + p.core <= w.offset);
        let prev = shares(windows, n - 1);
        assert((prev + share) * total == prev * total + share * total) by (nonlinear_arith);
        assert(max_atoms * (p.offset + p.core) + max_atoms * w.core <= max_atoms * (w.offset
            + w.core)) by (nonlinear_arith)
            requires
                max_atoms >= 0,
                p.offset + p.core <= w.offset,
        ;
    }
}

// ---------------------------------------------------------------------------------------------
// putting the windows' results together
// ---------------------------------------------------------------------------------------------

/// A windowed run's result so far.
#[derive(Debug)]
pub struct WindowedRun {
    pub selections: Vec<Selection>,
    /// The signal with everything selected taken out.
    pub residual: Vec<Single>,
    /// Frames bounded and frames recomputed, summed over the windows.
    pub marked: usize,
    pub resolved: usize,
    pub per_block: Vec<(usize, usize)>,
    /// Time spent building frame tables, ns. A windowed run pays this once per window.
    pub init: u64,
}

/// A selection in the signal's own time, with the signal's running residual energy.
pub open spec fn placed(s: Selection, offset: int, residual_energy: Double) -> Selection {
    Selection {
        atom: crate::atom::AtomParams { t0: (s.atom.t0 + offset) as i64, ..s.atom },
        onset: (s.onset + offset) as usize,
        residual_energy,
        ..s
    }
}

/// A signal's residual energy after the first `n` selections of a window, from what it was before.
pub open spec fn left_after<R: Reals>(r: &R, running: Double, selections: Seq<Selection>, n: int) -> Double
    decreases n,
{
    if n <= 0 {
        running
    } else {
        r.minus_of(
            left_after(r, running, selections, n - 1),
            selections[n - 1].energy_removed,
        ).larger(Double { bits: 0 })
    }
}

impl WindowedRun {
    /// Add what the window at `offset` selected, and return the signal's residual energy after it.
    ///
    /// Onsets are translated out of window coordinates. The book's energy column is one running total
    /// end to end, from the `running` energy the window started at.
    pub fn absorb<R: Reals>(
        &mut self,
        r: &R,
        offset: usize,
        selections: &[Selection],
        running: Double,
        stats: (usize, usize),
        per_block: &[(usize, usize)],
    ) -> (left: Double)
        requires
            r.repeatable(),
            per_block@.len() == old(self).per_block@.len(),
            offset <= i64::MAX,
            forall|i: int|
                0 <= i < selections@.len() ==> {
                    &&& (#[trigger] selections@[i]).atom.t0 + offset <= i64::MAX
                    &&& selections@[i].onset + offset <= usize::MAX
                },
        ensures
            left == left_after(r, running, selections@, selections@.len() as int),
            final(self).selections@ == old(self).selections@ + Seq::new(
                selections@.len(),
                |i: int|
                    placed(
                        selections@[i],
                        offset as int,
                        left_after(r, running, selections@, i + 1),
                    ),
            ),
            final(self).residual == old(self).residual,
            final(self).init == old(self).init,
            final(self).marked == counted(old(self).marked + stats.0),
            final(self).resolved == counted(old(self).resolved + stats.1),
            final(self).per_block@.len() == old(self).per_block@.len(),
            forall|b: int|
                0 <= b < per_block@.len() ==> #[trigger] final(self).per_block@[b] == (
                    counted(old(self).per_block@[b].0 + per_block@[b].0) as usize,
                    counted(old(self).per_block@[b].1 + per_block@[b].1) as usize,
                ),
    {
        let mut column: Vec<Double> = Vec::new();
        let mut left = running;
        let mut i: usize = 0;
        while i < selections.len()
            invariant
                r.repeatable(),
                i <= selections@.len(),
                column@.len() == i,
                left == left_after(r, running, selections@, i as int),
                forall|j: int|
                    0 <= j < i ==> #[trigger] column@[j] == left_after(
                        r,
                        running,
                        selections@,
                        j + 1,
                    ),
            decreases selections@.len() - i,
        {
            left = r.minus(left, selections[i].energy_removed).max(Double { bits: 0 });
            column.push(left);
            i += 1;
        }
        self.append(offset, selections, column.as_slice(), stats, per_block);
        assert(Seq::new(
            selections@.len(),
            |i: int| placed(selections@[i], offset as int, column@[i]),
        ) =~= Seq::new(
            selections@.len(),
            |i: int|
                placed(
                    selections@[i],
                    offset as int,
                    left_after(r, running, selections@, i + 1),
                ),
        ));
        left
    }

    /// Nothing selected yet from a signal, over as many blocks.
    pub fn new(signal: Vec<Single>, blocks: usize) -> (r: WindowedRun)
        ensures
            r.selections@.len() == 0,
            r.residual == signal,
            r.init == 0,
            r.marked == 0,
            r.resolved == 0,
            r.per_block@.len() == blocks,
            forall|b: int| 0 <= b < blocks ==> #[trigger] r.per_block@[b] == (0usize, 0usize),
    {
        let mut per_block: Vec<(usize, usize)> = Vec::new();
        let mut b: usize = 0;
        while b < blocks
            invariant
                b <= blocks,
                per_block@.len() == b,
                forall|i: int| 0 <= i < b ==> #[trigger] per_block@[i] == (0usize, 0usize),
            decreases blocks - b,
        {
            per_block.push((0, 0));
            b += 1;
        }
        WindowedRun {
            selections: Vec::new(),
            residual: signal,
            marked: 0,
            resolved: 0,
            per_block,
            init: 0,
        }
    }

    /// Add what the window at `offset` selected, with the signal's residual energy after each.
    fn append(
        &mut self,
        offset: usize,
        selections: &[Selection],
        running: &[Double],
        stats: (usize, usize),
        per_block: &[(usize, usize)],
    )
        requires
            running@.len() == selections@.len(),
            per_block@.len() == old(self).per_block@.len(),
            offset <= i64::MAX,
            forall|i: int|
                0 <= i < selections@.len() ==> {
                    &&& (#[trigger] selections@[i]).atom.t0 + offset <= i64::MAX
                    &&& selections@[i].onset + offset <= usize::MAX
                },
        ensures
            final(self).selections@ == old(self).selections@ + Seq::new(
                selections@.len(),
                |i: int| placed(selections@[i], offset as int, running@[i]),
            ),
            final(self).residual == old(self).residual,
            final(self).init == old(self).init,
            final(self).marked == counted(old(self).marked + stats.0),
            final(self).resolved == counted(old(self).resolved + stats.1),
            final(self).per_block@.len() == old(self).per_block@.len(),
            forall|b: int|
                0 <= b < per_block@.len() ==> #[trigger] final(self).per_block@[b] == (
                    counted(old(self).per_block@[b].0 + per_block@[b].0) as usize,
                    counted(old(self).per_block@[b].1 + per_block@[b].1) as usize,
                ),
    {
        let ghost start = *self;
        self.marked = self.marked.saturating_add(stats.0);
        self.resolved = self.resolved.saturating_add(stats.1);
        let mut b: usize = 0;
        while b < per_block.len()
            invariant
                b <= per_block@.len(),
                start == *old(self),
                per_block@.len() == start.per_block@.len(),
                self.selections == start.selections,
                self.residual == start.residual,
                self.init == start.init,
                self.marked == counted(start.marked + stats.0),
                self.resolved == counted(start.resolved + stats.1),
                self.per_block@.len() == start.per_block@.len(),
                forall|i: int|
                    0 <= i < b ==> #[trigger] self.per_block@[i] == (
                        counted(start.per_block@[i].0 + per_block@[i].0) as usize,
                        counted(start.per_block@[i].1 + per_block@[i].1) as usize,
                    ),
                forall|i: int|
                    b <= i < per_block@.len() ==> #[trigger] self.per_block@[i] == start.per_block@[i],
            decreases per_block@.len() - b,
        {
            let (m, r) = self.per_block[b];
            let (bm, br) = per_block[b];
            self.per_block.set(b, (m.saturating_add(bm), r.saturating_add(br)));
            b += 1;
        }
        let ghost added = Seq::new(
            selections@.len(),
            |i: int| placed(selections@[i], offset as int, running@[i]),
        );
        let ghost counted_up = *self;
        let mut i: usize = 0;
        proof {
            assert(start.selections@ + added.take(0) =~= start.selections@);
        }
        while i < selections.len()
            invariant
                i <= selections@.len(),
                running@.len() == selections@.len(),
                offset <= i64::MAX,
                forall|i: int|
                    0 <= i < selections@.len() ==> {
                        &&& (#[trigger] selections@[i]).atom.t0 + offset <= i64::MAX
                        &&& selections@[i].onset + offset <= usize::MAX
                    },
                added == Seq::new(
                    selections@.len(),
                    |i: int| placed(selections@[i], offset as int, running@[i]),
                ),
                self.selections@ == start.selections@ + added.take(i as int),
                self.residual == counted_up.residual,
                self.init == counted_up.init,
                self.marked == counted_up.marked,
                self.resolved == counted_up.resolved,
                self.per_block == counted_up.per_block,
            decreases selections@.len() - i,
        {
            let mut s = selections[i];
            assert(selections@[i as int].atom.t0 + offset <= i64::MAX);
            s.atom.t0 = s.atom.t0 + offset as i64;
            s.onset = s.onset + offset;
            s.residual_energy = running[i];
            self.selections.push(s);
            proof {
                assert(s == added[i as int]);
                assert(start.selections@ + added.take(i + 1) =~= (start.selections@ + added.take(
                    i as int,
                )).push(s));
            }
            i += 1;
        }
        proof {
            assert(added.take(added.len() as int) =~= added);
        }
    }
}

} // verus!
