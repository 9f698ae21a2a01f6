//! A decomposition book: the atoms in the order they were selected, with their energy bookkeeping.

use crate::calc::Calc;
use crate::ieee::{Double, Single};
use crate::pursuit::Selection;
use vstd::prelude::*;

verus! {

#[derive(Debug)]
pub struct Book {
    /// The signal's energy before anything was removed.
    pub initial_energy: Double,
    pub sample_rate: Single,
    /// Where the excerpt began in its source, in samples.
    pub start_sample: u64,
    pub selections: Vec<Selection>,
}

/// The energy left after every selection.
pub open spec fn energy_left(initial: Double, sels: Seq<Selection>) -> Double {
    if sels.len() == 0 {
        initial
    } else {
        sels.last().residual_energy
    }
}

/// The atoms after which the residual first is `target` below the initial energy.
pub open spec fn needed<C: Calc>(
    calc: &C,
    initial: Double,
    sels: Seq<Selection>,
    target: Single,
    r: Option<usize>,
) -> bool {
    match r {
        Some(n) => {
            &&& 1 <= n <= sels.len()
            &&& calc.reaches_of(initial, sels[n - 1].residual_energy, target)
            &&& forall|i: int|
                0 <= i < n - 1 ==> !calc.reaches_of(
                    initial,
                    (#[trigger] sels[i]).residual_energy,
                    target,
                )
        },
        None => forall|i: int|
            0 <= i < sels.len() ==> !calc.reaches_of(
                initial,
                (#[trigger] sels[i]).residual_energy,
                target,
            ),
    }
}

/// How far the residual was below the initial energy after each atom, dB.
pub open spec fn trace<C: Calc>(calc: &C, book: Book) -> Seq<Single> {
    Seq::new(
        book.selections@.len(),
        |i: int| calc.snr_of(book.initial_energy, book.selections@[i].residual_energy),
    )
}

/// How many of the first `n` selections `holds` picks out.
pub open spec fn count_where(
    sels: Seq<Selection>,
    holds: spec_fn(Selection) -> bool,
    n: int,
) -> int
    decreases n,
{
    if n <= 0 {
        0
    } else {
        count_where(sels, holds, n - 1) + (if holds(sels[n - 1]) {
            1int
        } else {
            0
        })
    }
}

pub proof fn lemma_count_bound(sels: Seq<Selection>, holds: spec_fn(Selection) -> bool, n: int)
    requires
        0 <= n,
    ensures
        0 <= count_where(sels, holds, n) <= n,
    decreases n,
{
    if n > 0 {
        lemma_count_bound(sels, holds, n - 1);
    }
}

/// Selections seeded in block `b`.
pub open spec fn seeded_in(sels: Seq<Selection>, b: int, n: int) -> int {
    count_where(sels, |s: Selection| s.block == b, n)
}

impl Book {
    pub fn new(initial_energy: Double, sample_rate: Single) -> (r: Book)
        ensures
            r.initial_energy == initial_energy,
            r.sample_rate == sample_rate,
            r.start_sample == 0,
            r.selections@.len() == 0,
    {
        Book { initial_energy, sample_rate, start_sample: 0, selections: Vec::new() }
    }

    pub fn len(&self) -> (r: usize)
        ensures
            r == self.selections@.len(),
    {
        self.selections.len()
    }

    pub fn is_empty(&self) -> (r: bool)
        ensures
            r == (self.selections@.len() == 0),
    {
        self.selections.len() == 0
    }

    /// The energy left after every selection.
    pub fn residual_energy(&self) -> (r: Double)
        ensures
            r == energy_left(self.initial_energy, self.selections@),
    {
        if self.selections.len() == 0 {
            self.initial_energy
        } else {
            self.selections[self.selections.len() - 1].residual_energy
        }
    }

    /// How far the residual is below the initial energy, dB.
    pub fn snr_db<C: Calc>(&self, calc: &C) -> (r: Single)
        requires
            calc.repeatable(),
        ensures
            r == calc.snr_of(
                self.initial_energy,
                energy_left(self.initial_energy, self.selections@),
            ),
    {
        calc.snr(self.initial_energy, self.residual_energy())
    }

    /// How far the residual was below the initial energy after each atom, dB.
    pub fn snr_trace<C: Calc>(&self, calc: &C) -> (r: Vec<Single>)
        requires
            calc.repeatable(),
        ensures
            r@ == trace(calc, *self),
    {
        let mut out: Vec<Single> = Vec::new();
        let mut i: usize = 0;
        while i < self.selections.len()
            invariant
                calc.repeatable(),
                i <= self.selections@.len(),
                out@ == trace(calc, *self).take(i as int),
            decreases self.selections@.len() - i,
        {
            out.push(calc.snr(self.initial_energy, self.selections[i].residual_energy));
            i += 1;
            assert(trace(calc, *self).take(i as int) =~= trace(calc, *self).take(i - 1).push(
                trace(calc, *self)[i - 1],
            ));
        }
        assert(trace(calc, *self).take(i as int) =~= trace(calc, *self));
        out
    }

    /// The atoms it took to bring the residual `target_db` below the initial energy, if they did.
    pub fn atoms_to_reach<C: Calc>(&self, calc: &C, target_db: Single) -> (r: Option<usize>)
        requires
            calc.repeatable(),
        ensures
            needed(calc, self.initial_energy, self.selections@, target_db, r),
    {
        let mut i: usize = 0;
        while i < self.selections.len()
            invariant
                calc.repeatable(),
                i <= self.selections@.len(),
                forall|j: int|
                    0 <= j < i ==> !calc.reaches_of(
                        self.initial_energy,
                        (#[trigger] self.selections@[j]).residual_energy,
                        target_db,
                    ),
            decreases self.selections@.len() - i,
        {
            if calc.reaches(self.initial_energy, self.selections[i].residual_energy, target_db) {
                assert(self.selections.len() == self.selections@.len());
                return Some(i + 1);
            }
            i += 1;
        }
        None
    }

    /// How many selections each of the first `blocks` blocks seeded.
    pub fn block_histogram(&self, blocks: usize) -> (r: Vec<usize>)
        ensures
            r@.len() == blocks,
            forall|b: int|
                0 <= b < blocks ==> #[trigger] r@[b] == seeded_in(
                    self.selections@,
                    b,
                    self.selections@.len() as int,
                ),
    {
        let mut out: Vec<usize> = Vec::new();
        let mut b: usize = 0;
        while b < blocks
            invariant
                b <= blocks,
                out@.len() == b,
                forall|i: int| 0 <= i < b ==> #[trigger] out@[i] == 0,
            decreases blocks - b,
        {
            out.push(0);
            b += 1;
        }
        let mut i: usize = 0;
        while i < self.selections.len()
            invariant
                i <= self.selections@.len(),
                out@.len() == blocks,
                forall|b: int|
                    0 <= b < blocks ==> #[trigger] out@[b] == seeded_in(
                        self.selections@,
                        b,
                        i as int,
                    ),
            decreases self.selections@.len() - i,
        {
            let at: usize = self.selections[i].block;
            if at < blocks {
                proof {
                    lemma_count_bound(self.selections@, |s: Selection| s.block == at as int, i as int);
                    assert(out@[at as int] == seeded_in(self.selections@, at as int, i as int));
                    assert(self.selections.len() == self.selections@.len());
                }
                let more: usize = out[at] + 1;
                out.set(at, more);
            }
            i += 1;
        }
        out
    }
}

} // verus!
