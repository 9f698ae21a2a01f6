//! What a chart and a table say of a number.

use crate::atom::{Envelope, Shape};
use crate::book::Book;
use crate::chart::{mark_of, place, ramp, time_ends};
use crate::dict::{lemma_fast_len, smooth, FofError};
use crate::display::percent_of;
use crate::ieee::{Double, Single};
use crate::mapmath::{MapFigures, MapMath};
use crate::notation::{Notation, Written};
use crate::pursuit::Selection;
use crate::reals::Reals;
use crate::rounding::{
    close, gives, lemma_close_to_itself, lemma_double_above_one, lemma_over, lemma_times, moderate, rounds,
    tame,
};
use crate::tfmap::{transform_len, weight_of, TfMap, Weight};
use vstd::prelude::*;

verus! {

/// A share in percent is a hundred times the part, over the whole.
pub proof fn law_a_percentage_is_of_a_hundred<R: Reals>(n: &Written<R>, part: Double, whole: Double)
    requires
        rounds(&n.reals),
        part.finite() && whole.finite(),
        0real < part.value() && 0real < whole.value(),
        tame(100real * part.value()),
        tame(100real * part.value() / whole.value()),
    ensures
        percent_of(n, part, whole).finite(),
        close(percent_of(n, part, whole).value(), 100real * part.value() / whole.value(), 7),
{
    let r = &n.reals;
    vstd::arithmetic::power2::lemma2_to64();
    let hundred = Double { bits: 0x4059_0000_0000_0000 };
    lemma_double_above_one(hundred, 6, 0x9_0000_0000_0000);
    assert(hundred.value() == 100real);
    lemma_close_to_itself(100real, 0);
    lemma_close_to_itself(part.value(), 0);
    lemma_close_to_itself(whole.value(), 0);
    lemma_times(r, hundred, part, 100real, part.value(), 0, 0);
    lemma_over(r, r.times_of(hundred, part), whole, 100real * part.value(), whole.value(), 3, 0);
}

/// A level's place on the colour ramp is how far it is above the floor, of the floor's depth: the floor
/// itself is at nothing, and the reference at one.
pub proof fn law_the_ramp_runs_from_the_floor_to_the_reference<R: Reals>(
    n: &Written<R>,
    db: Single,
    floor_db: Single,
)
    requires
        rounds(&n.reals),
        db.finite() && floor_db.finite(),
        0real < floor_db.value(),
        moderate(db.value() + floor_db.value()),
    ensures
        exists|up: real| #[trigger]
            close(up, db.value() + floor_db.value(), 1) && gives(
                ramp(n, db, floor_db),
                up / floor_db.value(),
            ),
{
    let r = &n.reals;
    let up = r.plus_of(r.widen_of(db), r.widen_of(floor_db));
    assert(gives(up, db.value() + floor_db.value()));
    assert(close(up.value(), db.value() + floor_db.value(), 1));
    assert(gives(r.over_of(up, r.widen_of(floor_db)), up.value() / floor_db.value()));
}

/// An atom is marked at its onset, in seconds at the book's rate.
pub proof fn law_a_mark_is_at_its_atoms_onset<R: Reals>(
    n: &Written<R>,
    book: Book,
    map: TfMap,
    i: int,
)
    requires
        rounds(&n.reals),
        0 <= i < book.selections@.len(),
        book.sample_rate.finite(),
        0real < book.sample_rate.value(),
        0 < book.selections@[i].atom.t0,
        tame(book.selections@[i].atom.t0 as real / book.sample_rate.value()),
    ensures
        mark_of(n, book, map, i).0.finite(),
        close(
            mark_of(n, book, map, i).0.value(),
            book.selections@[i].atom.t0 as real / book.sample_rate.value(),
            5,
        ),
        mark_of(n, book, map, i).1 == place(n, map.grid.f_edges@, book.selections@[i].atom.f),
{
    let r = &n.reals;
    let t = book.selections@[i].atom.t0;
    let at = r.long_of(t as i128);
    assert(moderate(t as real));
    assert(gives(at, t as real));
    lemma_close_to_itself(book.sample_rate.value(), 0);
    lemma_over(r, at, r.widen_of(book.sample_rate), t as real, book.sample_rate.value(), 1, 0);
}

/// A time axis ends where its map does, in seconds at the map's rate.
pub proof fn law_a_time_axis_is_in_seconds<R: Reals>(n: &Written<R>, map: TfMap)
    requires
        rounds(&n.reals),
        map.grid.sample_rate.finite(),
        0real < map.grid.sample_rate.value(),
        map.grid.t_edges@[0].finite() && map.grid.t_edges@[map.grid.columns()].finite(),
    ensures
        gives(time_ends(n, map).0, map.grid.t_edges@[0].value() / map.grid.sample_rate.value()),
        gives(
            time_ends(n, map).1,
            map.grid.t_edges@[map.grid.columns()].value() / map.grid.sample_rate.value(),
        ),
{
}

/// An atom is mapped with the energy that is asked for: what it removed, what validation gave it where it was
/// validated, or its own.
pub proof fn law_an_atom_is_mapped_with_what_is_asked<M: MapMath>(
    m: &M,
    sel: Selection,
    env: crate::atom::EnvelopeView,
)
    ensures
        weight_of(m, sel, env, Weight::EnergyRemoved) == sel.energy_removed,
        sel.hr_score matches Some(s) ==> weight_of(m, sel, env, Weight::HrScore) == s,
        sel.hr_score is None ==> weight_of(m, sel, env, Weight::HrScore) == sel.energy_removed,
        weight_of(m, sel, env, Weight::AtomEnergy) == m.atom_energy_of(sel.atom.amp, env.energy),
{
}

/// An atom's transform is as long as its oversampling and the display ask for, up to the longest there is, and
/// of a length that is fast: even, with no prime factors but two, three and five.
pub proof fn law_a_transform_is_long_enough<R, Render, Power>(
    m: &MapFigures<R, Render, Power>,
    support: int,
    df: Single,
    sample_rate: Single,
    oversample: usize,
) where
    R: Reals,
    Render: Fn(Shape, Single) -> Result<Envelope, FofError>,
    Power: Fn(Selection, Single, usize, usize) -> Vec<Double>,

    requires
        0 <= support,
    ensures
        ({
            let n = transform_len(m, support, df, sample_rate, oversample) as int;
            &&& n >= support || n >= 65_536
            &&& n >= support * oversample || n >= 65_536
            &&& df.above_zero() ==> n >= m.display_len_of(df, sample_rate) || n >= 65_536
            &&& n % 2 == 0
            &&& smooth(n)
        }),
{
    let times = if oversample >= 1 {
        oversample as int
    } else {
        1
    };
    let a = support * times;
    assert(support <= a && support * oversample <= a) by (nonlinear_arith)
        requires
            0 <= support,
            1 <= times,
            0 <= oversample <= times,
            a == support * times,
    ;
    let b = if df.above_zero() {
        m.display_len_of(df, sample_rate) as int
    } else {
        0
    };
    let wanted = if a >= b {
        a
    } else {
        b
    };
    let held = if wanted < 65_536 {
        wanted as usize
    } else {
        65_536
    };
    lemma_fast_len(held);
}

} // verus!
