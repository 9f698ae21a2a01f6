//! What a plan's windows cost, and what their energies add up to.

use crate::dict::{Block, Dictionary};
use crate::ieee::Double;
use crate::pursuit::{MpConfig, Selection};
use crate::reals::Reals;
use crate::rounding::{
    close, lemma_close_looser, lemma_close_sign, lemma_close_to_itself, lemma_close_undivided,
    lemma_counts, lemma_in_proportion, lemma_larger, lemma_least_normal, lemma_mirrored,
    lemma_one_more, lemma_over, lemma_plus, lemma_small_numbers, near, rounds, steady, steps, tame,
};
use crate::window::{affordable, density, left_after, planned, WindowPlan, FRAME_TABLE_BYTES};
use vstd::prelude::*;

verus! {

/// The bytes of frame table the first `n` blocks cost a sample: thirteen to a frame, and a frame to a
/// hop.
pub open spec fn table_bytes(blocks: Seq<Block>, n: int) -> real
    decreases n,
{
    if n <= 0 {
        0real
    } else {
        table_bytes(blocks, n - 1) + 13real / blocks[n - 1].hop as real
    }
}

/// A sample costs each block the bytes of a frame over the samples between its frames.
pub proof fn law_a_sample_costs_its_share_of_each_frame<R: Reals>(r: &R, blocks: Seq<Block>, n: int)
    requires
        rounds(r),
        0 <= n <= blocks.len(),
        n <= 190,
        forall|i: int|
            0 <= i < n ==> (#[trigger] blocks[i]).hop >= 1 && tame(13real / blocks[i].hop as real),
        forall|i: int| 1 <= i <= n ==> tame(#[trigger] table_bytes(blocks, i)),
    ensures
        density(r, blocks, n).finite(),
        close(density(r, blocks, n).value(), table_bytes(blocks, n), 6 + 2 * n),
    decreases n,
{
    if n == 0 {
        let zero = Double { bits: 0x8000_0000_0000_0000 };
        lemma_small_numbers();
        lemma_mirrored(Double { bits: 0 });
        assert((Double { bits: 0 }).mirrored() == zero);
        lemma_close_to_itself(0real, 6);
    } else {
        law_a_sample_costs_its_share_of_each_frame(r, blocks, n - 1);
        let hop = blocks[n - 1].hop;
        lemma_counts(r, FRAME_TABLE_BYTES);
        lemma_counts(r, hop);
        lemma_over(r, r.count_of(FRAME_TABLE_BYTES), r.count_of(hop), 13real, hop as real, 1, 1);
        let one = r.over_of(r.count_of(FRAME_TABLE_BYTES), r.count_of(hop));
        lemma_close_looser(one.value(), 13real / hop as real, 6, 4 + 2 * n);
        if n >= 2 {
            assert(tame(table_bytes(blocks, n - 1)));
        }
        assert(tame(table_bytes(blocks, n)));
        lemma_plus(
            r,
            density(r, blocks, n - 1),
            one,
            table_bytes(blocks, n - 1),
            13real / hop as real,
            4 + 2 * n,
        );
    }
}

/// A plan that is cut and does not say it is over its budget keeps the frame tables of a window, core
/// and guard, within it, to six parts in a million.
pub proof fn law_a_window_fits_its_memory<R: Reals>(
    r: &R,
    dict: Dictionary,
    signal_len: int,
    cfg: MpConfig,
    budget_bytes: usize,
    plan: WindowPlan,
)
    requires
        rounds(r),
        steps(r),
        planned(r, dict, signal_len, cfg, budget_bytes, None, plan),
        !plan.over_budget,
        plan.core_len < signal_len,
        plan.core_len >= 1,
        budget_bytes >= 1,
        plan.bytes_per_sample.finite(),
        tame(plan.bytes_per_sample.value()),
        tame(budget_bytes as real / plan.bytes_per_sample.value()),
        2real * (budget_bytes as real / plan.bytes_per_sample.value()) <= 1_000_000_000real,
    ensures
        1_000_000real * ((plan.core_len + plan.guard_len) as real * plan.bytes_per_sample.value())
            <= 1_000_006real * budget_bytes as real,
{
    let bytes = plan.bytes_per_sample;
    let b = bytes.value();
    let tiny = Double { bits: 0x0010_0000_0000_0000 };
    lemma_close_to_itself(b, 9);
    lemma_least_normal(bytes, b);
    lemma_larger(bytes, tiny);
    let held = bytes.larger(tiny);
    assert(held.value() == b);
    lemma_counts(r, budget_bytes);
    lemma_close_to_itself(b, 0);
    lemma_over(r, r.count_of(budget_bytes), held, budget_bytes as real, b, 1, 0);
    let x = r.over_of(r.count_of(budget_bytes), held);
    lemma_close_sign(x.value(), budget_bytes as real / b, 5);
    let down = r.whole_of(x);
    assert(down as real <= x.value());
    let aff = affordable(r, budget_bytes, bytes);
    assert(aff == down);
    assert(plan.core_len + plan.guard_len <= aff);
    lemma_close_undivided(x.value(), budget_bytes as real, b, 5);
    lemma_in_proportion((plan.core_len + plan.guard_len) as real, x.value(), b);
}

/// What the first `n` selections removed, altogether.
pub open spec fn removed(selections: Seq<Selection>, n: int) -> real
    decreases n,
{
    if n <= 0 {
        0real
    } else {
        removed(selections, n - 1) + selections[n - 1].energy_removed.value()
    }
}

/// The energy column is a running total: beside each atom stands the energy the window started at less
/// what the atoms so far have removed, to within the machine's errors, one for each of them.
pub proof fn law_the_energy_column_is_a_running_total<R: Reals>(
    r: &R,
    running: Double,
    selections: Seq<Selection>,
    n: int,
    limit: real,
    err: real,
)
    requires
        steady(r, limit, err),
        0real <= err,
        0 <= n <= selections.len(),
        running.finite(),
        forall|i: int| 0 <= i < n ==> (#[trigger] selections[i]).energy_removed.finite(),
        forall|i: int|
            0 <= i <= n ==> 0real <= running.value() - #[trigger] removed(selections, i) && running.value()
                - removed(selections, i) + n as real * err <= limit,
    ensures
        near(
            left_after(r, running, selections, n),
            running.value() - removed(selections, n),
            n as real * err,
        ),
    decreases n,
{
    lemma_small_numbers();
    if n == 0 {
        assert(removed(selections, 0) == 0real);
        assert(0int as real * err == 0real) by {
            lemma_one_more(0, err);
            assert(1int as real * err == err) by (nonlinear_arith);
        }
    } else {
        lemma_one_more(n - 1, err);
        assert forall|i: int| 0 <= i <= n - 1 implies 0real <= running.value() - #[trigger] removed(
            selections,
            i,
        ) && running.value() - removed(selections, i) + (n - 1) as real * err <= limit by {
        }
        law_the_energy_column_is_a_running_total(r, running, selections, n - 1, limit, err);
        let before = left_after(r, running, selections, n - 1);
        let gone = selections[n - 1].energy_removed;
        assert(0real <= running.value() - removed(selections, n));
        let rest = r.minus_of(before, gone);
        assert(near(rest, before.value() - gone.value(), err));
        lemma_larger(rest, Double { bits: 0 });
    }
}

} // verus!
