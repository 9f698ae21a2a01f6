//! What a map's cells hold.
//!
//! An atom's energy is spread over time by its envelope and over frequency by its spectrum. A cell gets the
//! product of the two shares, and what falls off the grid is counted too.

use crate::atom::{Envelope, EnvelopeView, Shape};
use crate::dict::FofError;
use crate::ieee::{Double, Single};
use crate::mapmath::{MapFigures, MapMath};
use crate::pursuit::Selection;
use crate::reals::Reals;
use crate::rounding::{
    close, gives, lemma_close_sign, lemma_mirrored, lemma_one_more, lemma_scaled_error, lemma_small_numbers,
    lemma_square_above, moderate, near, rounds, size, steady, tame,
};
use crate::tfmap::{
    cell_after, cell_through, energy_through, is_kernel, is_map, is_nil, lands, power_in, power_kept, weight_of,
    AtomKernel, MapGrid, MapOptions, TfMap,
};
use vstd::prelude::*;

verus! {

/// What a kernel gives a cell: its energy times the two shares, where it covers the cell.
pub open spec fn share_of(k: AtomKernel, i: int, j: int) -> real {
    if k.t_lo <= i < k.t_lo + k.time@.len() && k.f_lo <= j < k.f_lo + k.freq@.len() {
        k.weight.value() * k.time@[i - k.t_lo].value() * k.freq@[j - k.f_lo].value()
    } else {
        0real
    }
}

/// A kernel's energy is not below zero, and its shares are shares.
pub open spec fn is_sound(k: AtomKernel) -> bool {
    &&& k.weight.finite() && k.clipped.finite()
    &&& 0real <= k.weight.value()
    &&& forall|i: int|
        0 <= i < k.time@.len() ==> (#[trigger] k.time@[i]).finite() && 0real <= k.time@[i].value()
            <= 1real
    &&& forall|i: int|
        0 <= i < k.freq@.len() ==> (#[trigger] k.freq@[i]).finite() && 0real <= k.freq@[i].value()
            <= 1real
}

proof fn lemma_part_of(a: real, b: real)
    by (nonlinear_arith)
    requires
        0real <= a,
        0real <= b <= 1real,
    ensures
        0real <= a * b <= a,
{
}

proof fn lemma_nil_is_zero(x: Double)
    requires
        is_nil(x),
    ensures
        x.finite(),
        x.value() == 0real,
{
    lemma_small_numbers();
    lemma_mirrored(Double { bits: 0 });
    assert(x == (Double { bits: 0 }) || x == (Double { bits: 0 }).mirrored());
}

/// A kernel adds to a cell its energy times its share of the cell's column and its share of the cell's row,
/// and nothing to a cell it does not cover.
pub proof fn law_a_cell_gets_its_share<R, Render, Power>(
    m: &MapFigures<R, Render, Power>,
    k: AtomKernel,
    cell: Double,
    i: int,
    j: int,
    limit: real,
    err: real,
) where
    R: Reals,
    Render: Fn(Shape, Single) -> Result<Envelope, FofError>,
    Power: Fn(Selection, Single, usize, usize) -> Vec<Double>,

    requires
        steady(&m.reals, limit, err),
        0real <= err,
        is_sound(k),
        cell.finite(),
        size(cell.value()) + k.weight.value() + 3real * err <= limit,
    ensures
        near(cell_after(m, k, cell, i, j), cell.value() + share_of(k, i, j), 3real * err),
        0real <= share_of(k, i, j) <= k.weight.value(),
{
    let r = &m.reals;
    if k.t_lo <= i < k.t_lo + k.time@.len() && k.f_lo <= j < k.f_lo + k.freq@.len() {
        let (t, f) = (k.time@[i - k.t_lo], k.freq@[j - k.f_lo]);
        let w = k.weight.value();
        lemma_part_of(w, t.value());
        lemma_part_of(w * t.value(), f.value());
        if is_nil(t) {
            lemma_nil_is_zero(t);
            assert(w * t.value() * f.value() == 0real) by (nonlinear_arith)
                requires
                    t.value() == 0real,
            ;
        } else {
            let p = r.times_of(k.weight, t);
            assert(near(p, w * t.value(), err));
            lemma_scaled_error(f.value(), p.value(), w * t.value(), err);
            assert(f.value() * p.value() == p.value() * f.value()) by (nonlinear_arith);
            assert(f.value() * (w * t.value()) == w * t.value() * f.value()) by (nonlinear_arith);
            lemma_part_of(err, f.value());
            assert(f.value() * err == err * f.value()) by (nonlinear_arith);
            let q = r.times_of(p, f);
            assert(near(q, p.value() * f.value(), err));
            assert(near(r.plus_of(cell, q), cell.value() + q.value(), err));
        }
    }
}

/// What came of a selection, drawn or not.
pub open spec fn kernel_of(k: Result<Option<AtomKernel>, FofError>) -> Option<AtomKernel> {
    match k {
        Ok(Some(x)) => Some(x),
        _ => None,
    }
}

/// What the first `n` kernels give a cell, together.
pub open spec fn shares_through(
    ks: Seq<Result<Option<AtomKernel>, FofError>>,
    i: int,
    j: int,
    n: int,
) -> real
    decreases n,
{
    if n <= 0 {
        0real
    } else {
        shares_through(ks, i, j, n - 1) + match kernel_of(ks[n - 1]) {
            Some(k) => share_of(k, i, j),
            None => 0real,
        }
    }
}

/// The energy of the first `n` kernels, and how much of it is off the grid.
pub open spec fn energies_through(ks: Seq<Result<Option<AtomKernel>, FofError>>, n: int) -> (real, real)
    decreases n,
{
    if n <= 0 {
        (0real, 0real)
    } else {
        let (all, off) = energies_through(ks, n - 1);
        match kernel_of(ks[n - 1]) {
            Some(k) => (all + k.weight.value(), off + k.clipped.value()),
            None => (all, off),
        }
    }
}

/// A cell holds what the atoms of the book give it, together, to within three errors an atom.
pub proof fn law_a_cell_is_the_sum_of_its_shares<R, Render, Power>(
    m: &MapFigures<R, Render, Power>,
    ks: Seq<Result<Option<AtomKernel>, FofError>>,
    i: int,
    j: int,
    n: int,
    limit: real,
    err: real,
) where
    R: Reals,
    Render: Fn(Shape, Single) -> Result<Envelope, FofError>,
    Power: Fn(Selection, Single, usize, usize) -> Vec<Double>,

    requires
        steady(&m.reals, limit, err),
        0real <= err,
        0 <= n <= ks.len(),
        forall|a: int|
            0 <= a < n ==> (kernel_of(#[trigger] ks[a]) matches Some(k) ==> is_sound(k)),
        energies_through(ks, n).0 + 3real * (n as real * err) <= limit,
    ensures
        near(cell_through(m, ks, i, j, n), shares_through(ks, i, j, n), 3real * (n as real * err)),
        0real <= shares_through(ks, i, j, n) <= energies_through(ks, n).0,
    decreases n,
{
    lemma_small_numbers();
    if n == 0 {
        lemma_one_more(0, err);
        assert(1int as real * err == err) by (nonlinear_arith);
    } else {
        lemma_one_more(n - 1, err);
        assert(kernel_of(ks[n - 1]) matches Some(k) ==> is_sound(k));
        law_a_cell_is_the_sum_of_its_shares(m, ks, i, j, n - 1, limit, err);
        if let Some(k) = kernel_of(ks[n - 1]) {
            let before = cell_through(m, ks, i, j, n - 1);
            law_a_cell_gets_its_share(m, k, before, i, j, limit, err);
        }
    }
}

/// A map accounts for the energy of every atom it draws: what it holds and what fell off its grid come to
/// their energies, to within three errors an atom.
pub proof fn law_a_map_accounts_for_its_energy<R, Render, Power>(
    m: &MapFigures<R, Render, Power>,
    map: TfMap,
    g: MapGrid,
    ks: Seq<Result<Option<AtomKernel>, FofError>>,
    limit: real,
    err: real,
) where
    R: Reals,
    Render: Fn(Shape, Single) -> Result<Envelope, FofError>,
    Power: Fn(Selection, Single, usize, usize) -> Vec<Double>,

    requires
        steady(&m.reals, limit, err),
        0real <= err,
        is_map(m, map, g, ks),
        forall|a: int|
            0 <= a < ks.len() ==> (kernel_of(#[trigger] ks[a]) matches Some(k) ==> is_sound(k) && 0real
                <= k.clipped.value() <= k.weight.value()),
        energies_through(ks, ks.len() as int).0 + 3real * (ks.len() as real * err) <= limit,
    ensures
        map.deposited.finite() && map.clipped.finite(),
        size(
            map.deposited.value() + map.clipped.value() - energies_through(ks, ks.len() as int).0,
        ) <= 3real * (ks.len() as real * err),
        near(map.clipped, energies_through(ks, ks.len() as int).1, ks.len() as real * err),
{
    lemma_energy_is_accounted_for(m, ks, ks.len() as int, limit, err);
}

proof fn lemma_energy_is_accounted_for<R, Render, Power>(
    m: &MapFigures<R, Render, Power>,
    ks: Seq<Result<Option<AtomKernel>, FofError>>,
    n: int,
    limit: real,
    err: real,
) where
    R: Reals,
    Render: Fn(Shape, Single) -> Result<Envelope, FofError>,
    Power: Fn(Selection, Single, usize, usize) -> Vec<Double>,

    requires
        steady(&m.reals, limit, err),
        0real <= err,
        0 <= n <= ks.len(),
        forall|a: int|
            0 <= a < n ==> (kernel_of(#[trigger] ks[a]) matches Some(k) ==> is_sound(k) && 0real
                <= k.clipped.value() <= k.weight.value()),
        energies_through(ks, n).0 + 3real * (n as real * err) <= limit,
    ensures
        near(
            energy_through(m, ks, true, n),
            energies_through(ks, n).0 - energies_through(ks, n).1,
            2real * (n as real * err),
        ),
        near(energy_through(m, ks, false, n), energies_through(ks, n).1, n as real * err),
        0real <= energies_through(ks, n).1 <= energies_through(ks, n).0,
    decreases n,
{
    lemma_small_numbers();
    if n == 0 {
        lemma_one_more(0, err);
        assert(1int as real * err == err) by (nonlinear_arith);
    } else {
        lemma_one_more(n - 1, err);
        assert(kernel_of(ks[n - 1]) matches Some(k) ==> is_sound(k) && 0real <= k.clipped.value()
            <= k.weight.value());
        lemma_energy_is_accounted_for(m, ks, n - 1, limit, err);
        if let Some(k) = kernel_of(ks[n - 1]) {
            let r = &m.reals;
            let (on, off) = (energy_through(m, ks, true, n - 1), energy_through(m, ks, false, n - 1));
            let kept = r.minus_of(k.weight, k.clipped);
            assert(near(kept, k.weight.value() - k.clipped.value(), err));
            assert(near(r.plus_of(on, kept), on.value() + kept.value(), err));
            assert(near(r.plus_of(off, k.clipped), off.value() + k.clipped.value(), err));
        }
    }
}

/// The power of those of an envelope's first `n` samples that fall in column `i`.
pub open spec fn power_landed<M: MapMath>(
    m: &M,
    g: MapGrid,
    t0: i64,
    env: Seq<Single>,
    i: int,
    n: int,
) -> real
    decreases n,
{
    if n <= 0 {
        0real
    } else {
        power_landed(m, g, t0, env, i, n - 1) + if g.bin_of(m, m.instant_of(t0, (n - 1) as usize)) == Some(
            i,
        ) {
            env[n - 1].value() * env[n - 1].value()
        } else {
            0real
        }
    }
}

/// A column of an atom gets the squares of the samples that fall in it, to within two errors a sample.
pub proof fn law_a_column_gets_the_power_in_it<R, Render, Power>(
    m: &MapFigures<R, Render, Power>,
    g: MapGrid,
    t0: i64,
    env: Seq<Single>,
    i: int,
    n: int,
    limit: real,
    err: real,
) where
    R: Reals,
    Render: Fn(Shape, Single) -> Result<Envelope, FofError>,
    Power: Fn(Selection, Single, usize, usize) -> Vec<Double>,

    requires
        steady(&m.reals, limit, err),
        0real <= err,
        0 <= n <= env.len(),
        forall|a: int| 0 <= a < n ==> (#[trigger] env[a]).finite(),
        crate::subtract::power(env, n) + 2real * (n as real * err) <= limit,
    ensures
        near(
            power_in(m, g, t0, env, i, n),
            power_landed(m, g, t0, env, i, n),
            2real * (n as real * err),
        ),
        0real <= power_landed(m, g, t0, env, i, n) <= crate::subtract::power(env, n),
    decreases n,
{
    lemma_small_numbers();
    if n == 0 {
        lemma_one_more(0, err);
        assert(1int as real * err == err) by (nonlinear_arith);
    } else {
        let r = &m.reals;
        let x = env[n - 1];
        lemma_one_more(n - 1, err);
        lemma_square_above(x.value());
        law_a_column_gets_the_power_in_it(m, g, t0, env, i, n - 1, limit, err);
        let before = power_in(m, g, t0, env, i, n - 1);
        let sq = m.square_of(x);
        assert(near(sq, x.value() * x.value(), err));
        if is_nil(sq) {
            lemma_nil_is_zero(sq);
        }
        if lands(m, g, t0, env, n - 1) == Some(i) {
            assert(near(r.plus_of(before, sq), before.value() + sq.value(), err));
        }
    }
}

/// An atom's shares of the columns are the power in each over all of its power, on the grid and off it, from
/// the first column it reaches on.
pub proof fn law_shares_are_of_the_whole_atom<R, Render, Power>(
    m: &MapFigures<R, Render, Power>,
    sel: Selection,
    env: EnvelopeView,
    sample_rate: Single,
    g: MapGrid,
    opts: MapOptions,
    k: AtomKernel,
    i: int,
) where
    R: Reals,
    Render: Fn(Shape, Single) -> Result<Envelope, FofError>,
    Power: Fn(Selection, Single, usize, usize) -> Vec<Double>,

    requires
        rounds(&m.reals),
        is_kernel(m, sel, env, sample_rate, g, opts, Some(k)),
        0 <= i < k.time@.len(),
        ({
            let n = env.samples.len() as int;
            let t0 = sel.atom.t0;
            &&& k.t_lo + k.time@.len() <= g.columns()
            &&& power_in(m, g, t0, env.samples, k.t_lo + i, n).finite()
            &&& power_kept(m, g, t0, env.samples, true, n).finite()
            &&& power_kept(m, g, t0, env.samples, false, n).finite()
            &&& tame(
                power_kept(m, g, t0, env.samples, true, n).value() + power_kept(
                    m,
                    g,
                    t0,
                    env.samples,
                    false,
                    n,
                ).value(),
            )
        }),
    ensures
        k.weight == weight_of(m, sel, env, opts.weight),
        exists|whole: real|
            {
                &&& #[trigger] close(
                    whole,
                    power_kept(m, g, sel.atom.t0, env.samples, true, env.samples.len() as int).value()
                        + power_kept(
                        m,
                        g,
                        sel.atom.t0,
                        env.samples,
                        false,
                        env.samples.len() as int,
                    ).value(),
                    1,
                )
                &&& gives(
                    k.time@[i],
                    power_in(
                        m,
                        g,
                        sel.atom.t0,
                        env.samples,
                        k.t_lo + i,
                        env.samples.len() as int,
                    ).value() / whole,
                )
            },
{
    let r = &m.reals;
    let n = env.samples.len() as int;
    let t0 = sel.atom.t0;
    let (on, off) = (
        power_kept(m, g, t0, env.samples, true, n),
        power_kept(m, g, t0, env.samples, false, n),
    );
    let whole = r.plus_of(on, off);
    assert(moderate(on.value() + off.value()));
    assert(gives(whole, on.value() + off.value()));
    lemma_close_sign(whole.value(), on.value() + off.value(), 1);
    let part = power_in(m, g, t0, env.samples, k.t_lo + i, n);
    assert(k.time@[i] == r.over_of(part, whole));
    assert(gives(r.over_of(part, whole), part.value() / whole.value()));
    assert(close(whole.value(), on.value() + off.value(), 1));
}

} // verus!
