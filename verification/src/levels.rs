//! What a map shows.

use crate::ieee::{Double, Single};
use crate::mapmath::MapMath;
use crate::rounding::{
    least, lemma_in_order, lemma_in_order_single, lemma_larger, lemma_nothing_single,
    lemma_small_numbers,
};
use crate::tfmap::{at, peak_through, Reference, TfMap};
use vstd::prelude::*;

verus! {

/// The largest of some numbers, and zero where none is above it.
pub proof fn law_a_peak_is_the_largest(d: Seq<Double>, n: int, i: int)
    requires
        0 <= i < n <= d.len(),
        forall|j: int| 0 <= j < n ==> (#[trigger] d[j]).finite(),
    ensures
        peak_through(d, n).finite(),
        0real <= peak_through(d, n).value(),
        d[i].value() <= peak_through(d, n).value(),
        peak_through(d, n).value() == 0real || exists|j: int|
            0 <= j < n && #[trigger] d[j] == peak_through(d, n),
    decreases n,
{
    lemma_small_numbers();
    lemma_a_peak_is_one_of_them(d, n);
    lemma_a_peak_is_one_of_them(d, n - 1);
    lemma_larger(peak_through(d, n - 1), d[n - 1]);
    if i < n - 1 {
        law_a_peak_is_the_largest(d, n - 1, i);
    }
}

proof fn lemma_a_peak_is_one_of_them(d: Seq<Double>, n: int)
    requires
        0 <= n <= d.len(),
        forall|j: int| 0 <= j < n ==> (#[trigger] d[j]).finite(),
    ensures
        peak_through(d, n).finite(),
        0real <= peak_through(d, n).value(),
        peak_through(d, n) == (Double { bits: 0 }) || exists|j: int|
            0 <= j < n && #[trigger] d[j] == peak_through(d, n),
    decreases n,
{
    lemma_small_numbers();
    if n > 0 {
        lemma_a_peak_is_one_of_them(d, n - 1);
        lemma_larger(peak_through(d, n - 1), d[n - 1]);
        assert(peak_through(d, n) == peak_through(d, n - 1) || peak_through(d, n) == d[n - 1]);
    }
}

/// A cell is shown by the decibels of its density against the reference, and as zero where that is above it;
/// where there is nothing to show, as the floor.
pub proof fn law_a_level_never_passes_the_reference<M: MapMath>(
    m: &M,
    v: Double,
    reference: Double,
    floor_db: Single,
)
    requires
        v.finite() && reference.finite(),
        m.decibels_of(v, reference, floor_db).finite(),
    ensures
        0real < v.value() && 0real < reference.value() ==> {
            &&& TfMap::shown(m, v, reference, floor_db).finite()
            &&& TfMap::shown(m, v, reference, floor_db).value() == least(
                m.decibels_of(v, reference, floor_db).value(),
                0real,
            )
        },
        !(0real < v.value() && 0real < reference.value()) ==> TfMap::shown(
            m,
            v,
            reference,
            floor_db,
        ) == m.negated_of(floor_db),
{
    lemma_small_numbers();
    lemma_nothing_single();
    lemma_in_order(reference, Double { bits: 0 });
    lemma_in_order(v, Double { bits: 0 });
    lemma_in_order_single(Single { bits: 0 }, m.decibels_of(v, reference, floor_db));
}

/// Every cell is shown by its own density, and all against one reference: the largest density of the map,
/// or its energy spread evenly.
pub proof fn law_cells_share_one_reference<M: MapMath>(
    m: &M,
    map: TfMap,
    floor_db: Single,
    r: Reference,
    out: Seq<Single>,
) -> (answer: (Seq<Double>, Double))
    requires
        map.levels(m, floor_db, r, out),
    ensures
        answer.0.len() == out.len(),
        r is Max ==> answer.1 == peak_through(answer.0, out.len() as int),
        forall|i: int, j: int|
            0 <= i < map.grid.columns() && 0 <= j < map.grid.rows() && 0 <= #[trigger] at(
                i,
                j,
                map.grid.rows(),
            ) < out.len() ==> answer.0[at(i, j, map.grid.rows())] == map.density_at(m, i, j) && out[at(
                i,
                j,
                map.grid.rows(),
            )] == TfMap::shown(m, map.density_at(m, i, j), answer.1, floor_db),
{
    let d = choose|d: Seq<Double>| #[trigger]
        map.is_density(m, d) && forall|c: int|
            0 <= c < out.len() ==> #[trigger] out[c] == TfMap::shown(
                m,
                d[c],
                map.reference(m, d, r),
                floor_db,
            );
    (d, map.reference(m, d, r))
}

} // verus!
