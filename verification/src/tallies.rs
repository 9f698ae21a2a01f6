//! What a book's statistics count.
//!
//! A percentile is a rank, a bar is a sum of weights, and a share is a part of one. What each of those is
//! of is stated here.

use crate::calc::{Axis, Calc, Figures};
use crate::dict::FofError;
use crate::atom::Shape;
use crate::ieee::{Double, Single};
use crate::pursuit::Selection;
use crate::reals::Reals;
use crate::rounding::{
    gives, lemma_in_order, lemma_one_more, lemma_small_numbers, near, rounds, size, steady,
};
use crate::stats::{
    energy_in, mass, onset_gap, place_of, rank, removed_sum, shown, sorted, summary, weights, Place, Weight,
};
use vstd::prelude::*;

verus! {

/// `x` is the `p`th percentile of some numbers in order: it is one of them, `p` in a hundred are no further
/// on than it, and fewer than that come before it.
pub open spec fn is_percentile(v: Seq<Double>, p: int, x: Double) -> bool {
    exists|i: int| 0 <= i < v.len() && #[trigger] v[i] == x && 100 * i < p * v.len() <= 100 * (i + 1)
}

proof fn lemma_nearest_rank(n: int, p: int)
    requires
        1 <= n,
        1 <= p <= 100,
    ensures
        0 <= rank(n, p) < n,
        100 * rank(n, p) < p * n <= 100 * (rank(n, p) + 1),
{
    assert(1 <= p * n <= 100 * n) by (nonlinear_arith)
        requires
            1 <= n,
            1 <= p <= 100,
    ;
}

/// A summary's order statistics are the percentiles it names them for, the smallest and the largest.
pub proof fn law_a_summary_names_its_percentiles<C: Calc>(calc: &C, xs: Seq<Double>)
    requires
        0 < xs.len() <= usize::MAX,
        sorted(xs).len() == xs.len(),
    ensures
        ({
            let (s, v) = (summary(calc, xs), sorted(xs));
            &&& s.n == xs.len()
            &&& s.min == v.first() && s.max == v.last()
            &&& is_percentile(v, 5, s.p5)
            &&& is_percentile(v, 25, s.p25)
            &&& is_percentile(v, 50, s.median)
            &&& is_percentile(v, 75, s.p75)
            &&& is_percentile(v, 95, s.p95)
            &&& s.mean == calc.mean_of(v)
        }),
{
    let n = xs.len() as int;
    let (s, v) = (summary(calc, xs), sorted(xs));
    lemma_nearest_rank(n, 5);
    lemma_nearest_rank(n, 25);
    lemma_nearest_rank(n, 50);
    lemma_nearest_rank(n, 75);
    lemma_nearest_rank(n, 95);
    assert(v[rank(n, 5)] == s.p5 && v[rank(n, 25)] == s.p25 && v[rank(n, 50)] == s.median);
    assert(v[rank(n, 75)] == s.p75 && v[rank(n, 95)] == s.p95);
}

/// A value that can be shown is below the axis, above it or in one of its bins, as it is less than the low
/// end, more than the high end or neither.
pub proof fn law_a_value_is_placed_by_the_ends<C: Calc>(calc: &C, x: Double, axis: Axis, bins: usize)
    requires
        bins >= 1,
        shown(x, axis.log),
        axis.lo.finite() && axis.hi.finite(),
    ensures
        x.value() < axis.lo.value() ==> place_of(calc, Some(x), axis, bins) == Place::Below,
        axis.lo.value() <= x.value() && axis.hi.value() < x.value() ==> place_of(
            calc,
            Some(x),
            axis,
            bins,
        ) == Place::Above,
        axis.lo.value() <= x.value() <= axis.hi.value() ==> (place_of(
            calc,
            Some(x),
            axis,
            bins,
        ) matches Place::Bin(b) && b < bins && (calc.slot_of(x, axis, bins) < bins ==> b
            == calc.slot_of(x, axis, bins))),
{
    lemma_in_order(x, axis.lo);
    lemma_in_order(axis.hi, x);
}

/// A count weighs each atom as one, and an energy by what it removed.
pub proof fn law_weights_are_ones_or_energies(sels: Seq<Selection>, i: int)
    requires
        0 <= i < sels.len(),
    ensures
        weights(sels, Weight::Count).len() == sels.len(),
        weights(sels, Weight::Count)[i].value() == 1real,
        weights(sels, Weight::Energy).len() == sels.len(),
        weights(sels, Weight::Energy)[i] == sels[i].energy_removed,
{
    lemma_small_numbers();
}

/// The weight of those of the first `n` that a test picks out.
pub open spec fn weight_of(
    ws: Seq<Double>,
    places: Seq<Place>,
    holds: spec_fn(Place) -> bool,
    n: int,
) -> real
    decreases n,
{
    if n <= 0 {
        0real
    } else {
        weight_of(ws, places, holds, n - 1) + if holds(places[n - 1]) {
            ws[n - 1].value()
        } else {
            0real
        }
    }
}

/// How much the first `n` numbers could come to.
pub open spec fn most_of(ws: Seq<Double>, n: int) -> real
    decreases n,
{
    if n <= 0 {
        0real
    } else {
        most_of(ws, n - 1) + size(ws[n - 1].value())
    }
}

/// A bar is the weight of the atoms in its bin, to within the machine's errors, one for each atom of the
/// book.
pub proof fn law_a_bar_is_the_weight_in_its_bin<R, Render, Decibels, Snr>(
    calc: &Figures<R, Render, Decibels, Snr>,
    ws: Seq<Double>,
    places: Seq<Place>,
    holds: spec_fn(Place) -> bool,
    n: int,
    limit: real,
    err: real,
) where
    R: Reals,
    Render: Fn(Shape) -> Result<usize, FofError>,
    Decibels: Fn(Single) -> Double,
    Snr: Fn(Double, Double) -> Single,

    requires
        steady(&calc.reals, limit, err),
        0real <= err,
        0 <= n <= ws.len(),
        forall|i: int| 0 <= i < n ==> (#[trigger] ws[i]).finite(),
        most_of(ws, n) + n as real * err <= limit,
    ensures
        near(mass(calc, ws, places, holds, n), weight_of(ws, places, holds, n), n as real * err),
        size(weight_of(ws, places, holds, n)) <= most_of(ws, n),
    decreases n,
{
    lemma_small_numbers();
    if n == 0 {
        lemma_one_more(0, err);
        assert(1int as real * err == err) by (nonlinear_arith);
    } else {
        lemma_one_more(n - 1, err);
        law_a_bar_is_the_weight_in_its_bin(calc, ws, places, holds, n - 1, limit, err);
        if holds(places[n - 1]) {
            let before = mass(calc, ws, places, holds, n - 1);
            assert(near(
                calc.reals.plus_of(before, ws[n - 1]),
                before.value() + ws[n - 1].value(),
                err,
            ));
        }
    }
}

/// What those of the first `n` selections that were seeded in block `b` removed; all of them, for no block.
pub open spec fn removed_in(sels: Seq<Selection>, b: Option<int>, n: int) -> real
    decreases n,
{
    if n <= 0 {
        0real
    } else {
        removed_in(sels, b, n - 1) + if b is None || sels[n - 1].block == b->0 {
            sels[n - 1].energy_removed.value()
        } else {
            0real
        }
    }
}

/// How much the first `n` selections could have removed.
pub open spec fn most_removed(sels: Seq<Selection>, n: int) -> real
    decreases n,
{
    if n <= 0 {
        0real
    } else {
        most_removed(sels, n - 1) + size(sels[n - 1].energy_removed.value())
    }
}

/// A block's energy is what the atoms seeded in it removed, and the book's what all of them did.
pub proof fn law_a_blocks_energy_is_what_its_atoms_removed<R, Render, Decibels, Snr>(
    calc: &Figures<R, Render, Decibels, Snr>,
    sels: Seq<Selection>,
    b: int,
    n: int,
    limit: real,
    err: real,
) where
    R: Reals,
    Render: Fn(Shape) -> Result<usize, FofError>,
    Decibels: Fn(Single) -> Double,
    Snr: Fn(Double, Double) -> Single,

    requires
        steady(&calc.reals, limit, err),
        0real <= err,
        0 <= n <= sels.len(),
        forall|i: int| 0 <= i < n ==> (#[trigger] sels[i]).energy_removed.finite(),
        most_removed(sels, n) + n as real * err <= limit,
    ensures
        near(energy_in(calc, sels, b, n), removed_in(sels, Some(b), n), n as real * err),
        near(removed_sum(calc, sels, n), removed_in(sels, None, n), n as real * err),
        size(removed_in(sels, Some(b), n)) <= most_removed(sels, n),
        size(removed_in(sels, None, n)) <= most_removed(sels, n),
    decreases n,
{
    lemma_small_numbers();
    if n == 0 {
        lemma_one_more(0, err);
        assert(1int as real * err == err) by (nonlinear_arith);
    } else {
        lemma_one_more(n - 1, err);
        law_a_blocks_energy_is_what_its_atoms_removed(calc, sels, b, n - 1, limit, err);
        let gone = sels[n - 1].energy_removed;
        let (part, all) = (energy_in(calc, sels, b, n - 1), removed_sum(calc, sels, n - 1));
        assert(near(calc.reals.plus_of(all, gone), all.value() + gone.value(), err));
        if sels[n - 1].block == b {
            assert(near(calc.reals.plus_of(part, gone), part.value() + gone.value(), err));
        }
    }
}

/// How far an atom's onset is from its seed's, either way.
pub proof fn law_an_onset_gap_is_a_distance(s: Selection)
    requires
        s.onset - s.atom.t0 <= u64::MAX,
    ensures
        onset_gap(s) == s.atom.t0 - s.onset || onset_gap(s) == s.onset - s.atom.t0,
{
}

} // verus!
