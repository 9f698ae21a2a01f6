//! A time-frequency display of a decomposition: the atom-based pseudo-Wigner map.
//!
//! The map is a sum of *per-atom* distributions, so there are no cross-terms to suppress. For each
//! atom it deposits the separable product of the atom's time and frequency marginals,
//!
//! ```text
//! E_k(t, f) = E_k * p_k(t) * q_k(f)
//!
//! p_k = the atom's own power envelope, binned
//! q_k = the energy spectrum of the rendered atom, binned
//! ```
//!
//! Every kernel value is mass integrated over a bin, never a density sampled at its centre. What falls
//! outside the grid is reported rather than concentrated into the edge bins.

use crate::atom::EnvelopeView;
use crate::book::Book;
use crate::cache::{code, code_of};
use crate::dict::FofError;
use crate::golden::{held_to_range, hold_to_range};
use crate::ieee::{Double, Single, ONE};
use crate::mapmath::{MapMath, Stretch};
use crate::pool::spread;
use crate::pursuit::Selection;
use std::collections::HashMap;
use vstd::prelude::*;

verus! {

/// Longest transform a single atom may ask for.
pub const MAX_FFT_LEN: usize = 65_536;

/// Where the map lives and at what resolution.
///
/// Edges rather than `(lo, hi, n)`: a log-frequency axis then costs nothing but a different
/// constructor.
#[derive(Debug)]
pub struct MapGrid {
    /// Time bin edges in samples, ascending. Signed: an onset may be negative.
    pub t_edges: Vec<Double>,
    /// Frequency bin edges in Hz, ascending.
    pub f_edges: Vec<Single>,
    pub sample_rate: Single,
}

/// Which per-atom energy the map deposits.
#[derive(Clone, Copy, Debug, PartialEq, Eq, Structural)]
pub enum Weight {
    /// The energy the atom removed.
    EnergyRemoved,
    /// The local-support score where one was recorded, else the energy removed.
    HrScore,
    /// The atom's own energy, before any of it went into cancelling an earlier atom.
    AtomEnergy,
}

impl Default for Weight {
    fn default() -> (r: Weight)
        ensures
            r == Weight::EnergyRemoved,
    {
        Weight::EnergyRemoved
    }
}

#[derive(Clone, Copy, Debug, PartialEq, Eq, Structural)]
pub struct MapOptions {
    pub weight: Weight,
    /// Fine spectral bins per bandwidth, through the transform's pad.
    pub spec_oversample: usize,
    /// Skip frequency bins holding less than this fraction of an atom's spectral mass.
    pub cell_floor: Double,
}

impl Default for MapOptions {
    fn default() -> (r: MapOptions)
        ensures
            r == (MapOptions {
                weight: Weight::EnergyRemoved,
                spec_oversample: 4,
                cell_floor: Double { bits: 0x3d71_9799_812d_ea11 },
            }),
    {
        MapOptions {
            weight: Weight::EnergyRemoved,
            spec_oversample: 4,
            cell_floor: Double { bits: 0x3d71_9799_812d_ea11 },
        }
    }
}

/// What the dB scale is measured against.
#[derive(Clone, Copy, Debug, PartialEq, Eq, Structural)]
pub enum Reference {
    /// The largest cell in this map. Self-scaling; two maps are not comparable.
    Max,
    /// The energy mapped, spread over the grid. Makes two maps of different signals comparable.
    Initial,
}

impl Default for Reference {
    fn default() -> (r: Reference)
        ensures
            r == Reference::Max,
    {
        Reference::Max
    }
}

/// One atom's contribution, before accumulation. Separable, so it is two vectors and not a block.
#[derive(Debug)]
pub struct AtomKernel {
    /// First time bin `time` applies to.
    pub t_lo: usize,
    /// Mass per time bin, as fractions of the atom's whole power.
    pub time: Vec<Double>,
    /// First frequency bin `freq` applies to.
    pub f_lo: usize,
    /// Mass per frequency bin, as fractions of the atom's whole spectrum.
    pub freq: Vec<Double>,
    /// The energy the atom is mapped with.
    pub weight: Double,
    /// Mass that fell outside the grid on either axis.
    pub clipped: Double,
}

/// The accumulated map, in energy units: not density, not dB.
#[derive(Debug)]
pub struct TfMap {
    pub grid: MapGrid,
    /// Row-major, a row to a time bin.
    pub cells: Vec<Double>,
    /// Energy landing inside the grid.
    pub deposited: Double,
    /// Energy whose atom fell partly or wholly outside it.
    pub clipped: Double,
    pub atoms: usize,
    /// Atoms that could not be rendered, or carry no usable energy.
    pub skipped: usize,
}

// ---------------------------------------------------------------------------------------------
// the grid
// ---------------------------------------------------------------------------------------------

/// At least one.
pub open spec fn some(n: usize) -> usize {
    if n >= 1 {
        n
    } else {
        1
    }
}

fn at_least_one(n: usize) -> (r: usize)
    ensures
        r == some(n),
{
    if n >= 1 {
        n
    } else {
        1
    }
}

/// The edges of a grid, even in time, and in frequency even or geometric.
pub open spec fn is_grid<M: MapMath>(
    m: &M,
    g: MapGrid,
    t: (Double, Double),
    n_t: usize,
    f: (Single, Single),
    n_f: usize,
    log: bool,
    sample_rate: Single,
) -> bool {
    &&& g.sample_rate == sample_rate
    &&& g.t_edges@.len() == some(n_t) + 1
    &&& g.f_edges@.len() == some(n_f) + 1
    &&& forall|i: int|
        0 <= i <= some(n_t) ==> #[trigger] g.t_edges@[i] == m.t_edge_of(t.0, t.1, i as usize, some(n_t))
    &&& !log ==> forall|i: int|
        0 <= i <= some(n_f) ==> #[trigger] g.f_edges@[i] == m.f_edge_of(f.0, f.1, i as usize, some(n_f))
    &&& log ==> forall|i: int|
        0 <= i <= some(n_f) ==> #[trigger] g.f_edges@[i] == m.f_edge_log_of(
            f.0,
            f.1,
            i as usize,
            some(n_f),
        )
}

/// The bits of the lowest frequency a geometric axis can start at, a thousandth of a hertz.
pub const LOWEST_HZ: u32 = 0x3a83_126f;

/// The ends of a frequency axis: those asked for, or on a geometric one, which has no place for zero,
/// a positive start and an end above it.
pub open spec fn axis_ends<M: MapMath>(m: &M, f: (Single, Single), log: bool) -> (Single, Single) {
    if log {
        let lo = f.0.larger(Single { bits: LOWEST_HZ });
        (lo, m.stretched_of(lo, f.1))
    } else {
        f
    }
}

fn edges<M: MapMath>(
    m: &M,
    t: (Double, Double),
    n_t: usize,
    f: (Single, Single),
    n_f: usize,
    log: bool,
    sample_rate: Single,
) -> (r: MapGrid)
    requires
        m.repeatable(),
        n_t < usize::MAX,
        n_f < usize::MAX,
    ensures
        is_grid(m, r, t, n_t, f, n_f, log, sample_rate),
{
    let n_t: usize = at_least_one(n_t);
    let n_f: usize = at_least_one(n_f);
    let mut t_edges: Vec<Double> = Vec::new();
    let mut i: usize = 0;
    while i <= n_t
        invariant
            m.repeatable(),
            n_t < usize::MAX,
            i <= n_t + 1,
            t_edges@.len() == i,
            forall|j: int|
                0 <= j < i ==> #[trigger] t_edges@[j] == m.t_edge_of(t.0, t.1, j as usize, n_t),
        decreases n_t + 1 - i,
    {
        t_edges.push(m.t_edge(t.0, t.1, i, n_t));
        i += 1;
    }
    let mut f_edges: Vec<Single> = Vec::new();
    let mut i: usize = 0;
    while i <= n_f
        invariant
            m.repeatable(),
            n_f < usize::MAX,
            i <= n_f + 1,
            f_edges@.len() == i,
            !log ==> forall|j: int|
                0 <= j < i ==> #[trigger] f_edges@[j] == m.f_edge_of(f.0, f.1, j as usize, n_f),
            log ==> forall|j: int|
                0 <= j < i ==> #[trigger] f_edges@[j] == m.f_edge_log_of(f.0, f.1, j as usize, n_f),
        decreases n_f + 1 - i,
    {
        f_edges.push(
            if log {
                m.f_edge_log(f.0, f.1, i, n_f)
            } else {
                m.f_edge(f.0, f.1, i, n_f)
            },
        );
        i += 1;
    }
    MapGrid { t_edges, f_edges, sample_rate }
}

/// How far a book's atoms reach: in time from the earliest onset to past the latest sample, and in
/// frequency the lowest carrier, the highest, and the highest with its bandwidth.
#[derive(Clone, Copy, Debug, PartialEq, Eq, Structural)]
pub struct Extent {
    pub t_lo: i64,
    pub t_hi: i64,
    pub f_lo: Single,
    pub f_max: Single,
    pub f_hi: Single,
}

/// The lesser of the two; of a number and a NaN, the number.
pub open spec fn smaller(a: Single, b: Single) -> Single {
    if b.nan() || a.at_most(b) {
        a
    } else {
        b
    }
}

/// The supports the first `n` atoms were rendered at, one render to a memo code; stopped by the first
/// that cannot be.
pub open spec fn rendered_through<M: MapMath>(
    m: &M,
    sample_rate: Single,
    sels: Seq<Selection>,
    n: int,
) -> (Result<Seq<usize>, FofError>, Map<u128, usize>)
    decreases n,
{
    if n <= 0 {
        (Ok(seq![]), Map::empty())
    } else {
        match rendered_through(m, sample_rate, sels, n - 1) {
            (Err(e), memo) => (Err(e), memo),
            (Ok(lens), memo) => {
                let shape = sels[n - 1].atom.env;
                if memo.dom().contains(code(shape)) {
                    (Ok(lens.push(memo[code(shape)])), memo)
                } else {
                    match m.render_of(shape, sample_rate) {
                        Err(e) => (Err(e), memo),
                        Ok(env) => {
                            let len = env.samples.len() as usize;
                            (Ok(lens.push(len)), memo.insert(code(shape), len))
                        },
                    }
                }
            },
        }
    }
}

proof fn lemma_rendered_stopped<M: MapMath>(
    m: &M,
    sample_rate: Single,
    sels: Seq<Selection>,
    a: int,
    b: int,
)
    requires
        0 <= a <= b,
        rendered_through(m, sample_rate, sels, a).0 is Err,
    ensures
        rendered_through(m, sample_rate, sels, b) == rendered_through(m, sample_rate, sels, a),
    decreases b,
{
    if a < b {
        lemma_rendered_stopped(m, sample_rate, sels, a, b - 1);
    }
}

/// How far the first `n` atoms reach.
pub open spec fn extent_of<M: MapMath>(
    m: &M,
    sels: Seq<Selection>,
    lens: Seq<usize>,
    n: int,
) -> Extent
    decreases n,
{
    if n <= 0 {
        Extent {
            t_lo: i64::MAX,
            t_hi: i64::MIN,
            f_lo: Single { bits: 0x7f80_0000 },
            f_max: Single { bits: 0 },
            f_hi: Single { bits: 0 },
        }
    } else {
        let e = extent_of(m, sels, lens, n - 1);
        let a = sels[n - 1].atom;
        let end = held_to_range(a.t0 + lens[n - 1]);
        Extent {
            t_lo: if a.t0 < e.t_lo {
                a.t0
            } else {
                e.t_lo
            },
            t_hi: if end > e.t_hi {
                end
            } else {
                e.t_hi
            },
            f_lo: smaller(e.f_lo, a.f),
            f_max: e.f_max.larger(a.f),
            f_hi: e.f_hi.larger(m.reach_of(a.f, a.env)),
        }
    }
}

proof fn lemma_extent_prefix<M: MapMath>(
    m: &M,
    sels: Seq<Selection>,
    a: Seq<usize>,
    b: Seq<usize>,
    n: int,
)
    requires
        0 <= n <= a.len() <= b.len(),
        forall|i: int| 0 <= i < n ==> #[trigger] a[i] == b[i],
    ensures
        extent_of(m, sels, a, n) == extent_of(m, sels, b, n),
    decreases n,
{
    if n > 0 {
        lemma_extent_prefix(m, sels, a, b, n - 1);
        assert(a[n - 1] == b[n - 1]);
    }
}

/// Edge `i` of `n` in time: as it comes, but for an outer one that falls short of the samples it has to
/// show, which is taken out to them.
pub open spec fn outward(shown: (Double, Double), x: Double, i: int, n: int) -> Double {
    if i == 0 && !x.at_most(shown.0) {
        shown.0
    } else if i == n && !shown.1.at_most(x) {
        shown.1
    } else {
        x
    }
}

/// Edge `i` of `n` in frequency, in the same way.
pub open spec fn outward_hz(
    shown: (Option<Single>, Option<Single>),
    x: Single,
    i: int,
    n: int,
) -> Single {
    match shown {
        (Some(lo), _) if i == 0 && !x.at_most(lo) => lo,
        (_, Some(hi)) if i == n && !hi.at_most(x) => hi,
        _ => x,
    }
}

/// The carriers an axis has to show, the lowest and the highest: those above zero, and at most half the
/// sample rate.
pub open spec fn carriers_shown<M: MapMath>(m: &M, e: Extent, sample_rate: Single) -> (
    Option<Single>,
    Option<Single>,
) {
    (
        if e.f_lo.above_zero() && e.f_max.above_zero() {
            Some(e.f_lo)
        } else {
            None
        },
        if e.f_max.above_zero() && e.f_max.at_most(m.nyquist_of(sample_rate)) {
            Some(e.f_max)
        } else {
            None
        },
    )
}

/// The frequencies an axis is laid out over: some way above the highest carrier, and on a geometric
/// axis from some way below the lowest, or from the lowest itself where it is lower still.
pub open spec fn shown_range<M: MapMath>(m: &M, e: Extent, sample_rate: Single, log: bool) -> (
    Single,
    Single,
) {
    let top = m.top_of(e.f_hi, sample_rate);
    if log {
        let below = m.bottom_of(e.f_lo).larger(Single { bits: LOWEST_HZ });
        let lo = if e.f_lo.above_zero() && !below.at_most(e.f_lo) {
            e.f_lo
        } else {
            below
        };
        (lo, m.stretched_of(lo, top))
    } else {
        (Single { bits: 0 }, top)
    }
}

/// The grid that covers atoms rendered at `lens`.
pub open spec fn covers<M: MapMath>(
    m: &M,
    sels: Seq<Selection>,
    lens: Seq<usize>,
    n_t: usize,
    n_f: usize,
    log: bool,
    sample_rate: Single,
    g: MapGrid,
) -> bool {
    let e = extent_of(m, sels, lens, sels.len() as int);
    let t = (m.sample_of(e.t_lo), m.sample_of(past(e)));
    let f = shown_range(m, e, sample_rate, log);
    let (cols, rows) = (some(n_t), some(n_f));
    &&& g.sample_rate == sample_rate
    &&& g.t_edges@ == Seq::new(
        (cols + 1) as nat,
        |i: int|
            outward(
                (m.sample_of(e.t_lo), m.sample_of(e.t_hi)),
                m.t_edge_of(t.0, t.1, i as usize, cols),
                i,
                cols as int,
            ),
    )
    &&& g.f_edges@ == Seq::new(
        (rows + 1) as nat,
        |i: int|
            outward_hz(
                carriers_shown(m, e, sample_rate),
                if log {
                    m.f_edge_log_of(f.0, f.1, i as usize, rows)
                } else {
                    m.f_edge_of(f.0, f.1, i as usize, rows)
                },
                i,
                rows as int,
            ),
    )
}

/// An extent holds each of its atoms.
proof fn lemma_extent_holds<M: MapMath>(m: &M, sels: Seq<Selection>, lens: Seq<usize>, n: int, i: int)
    requires
        0 <= i < n <= sels.len(),
        n <= lens.len(),
        !sels[i].atom.f.nan(),
    ensures
        ({
            let e = extent_of(m, sels, lens, n);
            let a = sels[i].atom;
            &&& e.t_lo <= a.t0
            &&& held_to_range(a.t0 + lens[i]) <= e.t_hi
            &&& e.f_lo.at_most(a.f)
            &&& a.f.at_most(e.f_max)
        }),
    decreases n,
{
    lemma_extent_ordered(m, sels, lens, n - 1);
    if i < n - 1 {
        lemma_extent_holds(m, sels, lens, n - 1, i);
    }
}

proof fn lemma_extent_ordered<M: MapMath>(m: &M, sels: Seq<Selection>, lens: Seq<usize>, n: int)
    ensures
        !extent_of(m, sels, lens, n).f_lo.nan(),
        !extent_of(m, sels, lens, n).f_max.nan(),
    decreases n,
{
    if n > 0 {
        lemma_extent_ordered(m, sels, lens, n - 1);
    }
}

/// The lowest of carriers above zero is above zero.
proof fn lemma_extent_above_zero<M: MapMath>(m: &M, sels: Seq<Selection>, lens: Seq<usize>, n: int)
    requires
        n <= sels.len(),
        forall|i: int| 0 <= i < n ==> (#[trigger] sels[i]).atom.f.above_zero(),
    ensures
        extent_of(m, sels, lens, n).f_lo.above_zero(),
    decreases n,
{
    if n > 0 {
        lemma_extent_above_zero(m, sels, lens, n - 1);
        assert(sels[n - 1].atom.f.above_zero());
    }
}

/// The highest of carriers up to a limit is up to it.
proof fn lemma_extent_limited<M: MapMath>(
    m: &M,
    sels: Seq<Selection>,
    lens: Seq<usize>,
    n: int,
    limit: Single,
)
    requires
        n <= sels.len(),
        limit.above_zero(),
        forall|i: int| 0 <= i < n ==> (#[trigger] sels[i]).atom.f.at_most(limit),
    ensures
        extent_of(m, sels, lens, n).f_max.at_most(limit),
    decreases n,
{
    if n > 0 {
        lemma_extent_limited(m, sels, lens, n - 1, limit);
        assert(sels[n - 1].atom.f.at_most(limit));
    }
}

/// Numbering samples keeps their order.
pub open spec fn numbers_in_order<M: MapMath>(m: &M) -> bool {
    forall|a: i64, b: i64|
        a <= b ==> (#[trigger] m.sample_of(a)).at_most(#[trigger] m.sample_of(b))
}

/// A covering grid shows every atom: its carrier on a linear and on a geometric axis, and its support
/// wherever numbering samples keeps their order. Carriers are above zero and at most half the sample
/// rate.
pub proof fn law_a_covering_grid_shows_every_atom<M: MapMath>(
    m: &M,
    sels: Seq<Selection>,
    lens: Seq<usize>,
    n_t: usize,
    n_f: usize,
    log: bool,
    sample_rate: Single,
    g: MapGrid,
    i: int,
)
    requires
        covers(m, sels, lens, n_t, n_f, log, sample_rate, g),
        lens.len() == sels.len(),
        forall|j: int|
            0 <= j < sels.len() ==> (#[trigger] sels[j]).atom.f.above_zero()
                && sels[j].atom.f.at_most(m.nyquist_of(sample_rate)),
        0 <= i < sels.len(),
    ensures
        ({
            let a = sels[i].atom;
            &&& g.columns() == some(n_t)
            &&& g.rows() == some(n_f)
            &&& g.f_edges@[0].at_most(a.f)
            &&& a.f.at_most(g.f_edges@[g.rows()])
            &&& numbers_in_order(m) ==> {
                &&& g.t_edges@[0].at_most(m.sample_of(a.t0))
                &&& m.sample_of(held_to_range(a.t0 + lens[i])).at_most(g.t_edges@[g.columns()])
            }
        }),
{
    let n = sels.len() as int;
    let e = extent_of(m, sels, lens, n);
    let a = sels[i].atom;
    assert(a.f.above_zero());
    lemma_extent_holds(m, sels, lens, n, i);
    lemma_extent_above_zero(m, sels, lens, n);
    lemma_extent_limited(m, sels, lens, n, m.nyquist_of(sample_rate));
    assert(carriers_shown(m, e, sample_rate) == (Some(e.f_lo), Some(e.f_max)));
    assert(g.f_edges@[0].at_most(e.f_lo));
    assert(e.f_max.at_most(g.f_edges@[g.rows()]));
    if numbers_in_order(m) {
        assert(m.sample_of(e.t_lo).at_most(m.sample_of(a.t0)));
        assert(m.sample_of(held_to_range(a.t0 + lens[i])).at_most(m.sample_of(e.t_hi)));
    }
}

/// The extent's end in time, past its start.
pub open spec fn past(e: Extent) -> i64 {
    if e.t_hi <= e.t_lo {
        held_to_range(e.t_lo + 1)
    } else {
        e.t_hi
    }
}

impl MapGrid {
    pub open spec fn wf(&self) -> bool {
        self.t_edges@.len() >= 2 && self.f_edges@.len() >= 2
    }

    pub open spec fn columns(&self) -> int {
        self.t_edges@.len() - 1
    }

    pub open spec fn rows(&self) -> int {
        self.f_edges@.len() - 1
    }

    /// Uniform bins on both axes.
    pub fn linear<M: MapMath>(
        m: &M,
        t: (Double, Double),
        n_t: usize,
        f: (Single, Single),
        n_f: usize,
        sample_rate: Single,
    ) -> (r: MapGrid)
        requires
            m.repeatable(),
            n_t < usize::MAX,
            n_f < usize::MAX,
        ensures
            is_grid(m, r, t, n_t, f, n_f, false, sample_rate),
            r.wf(),
    {
        edges(m, t, n_t, f, n_f, false, sample_rate)
    }

    /// Uniform in time, geometric in frequency. The axis starts at something positive, since zero has
    /// no place on a geometric one.
    pub fn log_freq<M: MapMath>(
        m: &M,
        t: (Double, Double),
        n_t: usize,
        f: (Single, Single),
        n_f: usize,
        sample_rate: Single,
    ) -> (r: MapGrid)
        requires
            m.repeatable(),
            n_t < usize::MAX,
            n_f < usize::MAX,
        ensures
            is_grid(m, r, t, n_t, axis_ends(m, f, true), n_f, true, sample_rate),
            r.wf(),
    {
        let lo = f.0.max(Single { bits: LOWEST_HZ });
        let hi = m.stretched(lo, f.1);
        edges(m, t, n_t, (lo, hi), n_f, true, sample_rate)
    }

    /// Bounds covering every atom's support and carrier.
    ///
    /// The book records no signal length, so the extent is derived from the atoms. The ceiling is some
    /// way above the highest carrier, since half the sample rate would often be mostly empty band.
    /// Fails only where an atom cannot be rendered.
    pub fn covering<M: MapMath>(m: &M, book: &Book, n_t: usize, n_f: usize, log_freq: bool) -> (r:
        Result<MapGrid, FofError>)
        requires
            m.repeatable(),
            n_t < usize::MAX,
            n_f < usize::MAX,
        ensures
            ({
                let sr = book.sample_rate;
                let sels = book.selections@;
                let n = sels.len() as int;
                match (rendered_through(m, sr, sels, n).0, r) {
                    (Ok(lens), Ok(g)) => {
                        &&& g.wf()
                        &&& if n == 0 {
                            is_grid(
                                m,
                                g,
                                (Double { bits: 0 }, Double { bits: ONE }),
                                n_t,
                                (Single { bits: 0 }, m.nyquist_of(sr)),
                                n_f,
                                false,
                                sr,
                            )
                        } else {
                            covers(m, sels, lens, n_t, n_f, log_freq, sr, g)
                        }
                    },
                    (Err(e), Err(f)) => e == f,
                    _ => false,
                }
            }),
    {
        broadcast use vstd::std_specs::hash::group_hash_axioms;

        let sr = book.sample_rate;
        if book.is_empty() {
            return Ok(
                MapGrid::linear(
                    m,
                    (Double { bits: 0 }, Double { bits: ONE }),
                    n_t,
                    (Single { bits: 0 }, m.nyquist(sr)),
                    n_f,
                    sr,
                ),
            );
        }
        let ghost sels = book.selections@;
        let mut memo: HashMap<u128, usize> = HashMap::new();
        let mut e = Extent {
            t_lo: i64::MAX,
            t_hi: i64::MIN,
            f_lo: Single { bits: 0x7f80_0000 },
            f_max: Single { bits: 0 },
            f_hi: Single { bits: 0 },
        };
        let ghost mut lens: Seq<usize> = seq![];
        let mut i: usize = 0;
        assert(memo@ =~= Map::empty());
        while i < book.selections.len()
            invariant
                m.repeatable(),
                sels == book.selections@,
                sr == book.sample_rate,
                i <= sels.len(),
                lens.len() == i,
                rendered_through(m, sr, sels, i as int) == (
                    Ok::<Seq<usize>, FofError>(lens),
                    memo@,
                ),
                e == extent_of(m, sels, lens, i as int),
            decreases sels.len() - i,
        {
            broadcast use vstd::std_specs::hash::group_hash_axioms;

            let atom = book.selections[i].atom;
            let key: u128 = code_of(&atom.env);
            let held: Option<usize> = match memo.get(&key) {
                Some(n) => Some(*n),
                None => None,
            };
            let len: usize = match held {
                Some(n) => n,
                None => match m.render(atom.env, sr) {
                    Ok(env) => {
                        let n: usize = env.support_len();
                        let ghost before = memo@;
                        memo.insert(key, n);
                        assert(memo@ =~= before.insert(key, n));
                        n
                    },
                    Err(why) => {
                        proof {
                            assert(rendered_through(m, sr, sels, i + 1).0 == Err::<
                                Seq<usize>,
                                FofError,
                            >(why));
                            lemma_rendered_stopped(m, sr, sels, i + 1, sels.len() as int);
                        }
                        return Err(why);
                    },
                },
            };
            proof {
                let before = lens;
                lens = lens.push(len);
                lemma_extent_prefix(m, sels, before, lens, i as int);
            }
            let end: i64 = hold_to_range(atom.t0 as i128 + len as i128);
            let reach = m.reach(atom.f, atom.env);
            e = Extent {
                t_lo: if atom.t0 < e.t_lo {
                    atom.t0
                } else {
                    e.t_lo
                },
                t_hi: if end > e.t_hi {
                    end
                } else {
                    e.t_hi
                },
                f_lo: if atom.f.is_nan() || e.f_lo.le(atom.f) {
                    e.f_lo
                } else {
                    atom.f
                },
                f_max: e.f_max.max(atom.f),
                f_hi: e.f_hi.max(reach),
            };
            i += 1;
        }
        let t_hi: i64 = if e.t_hi <= e.t_lo {
            hold_to_range(e.t_lo as i128 + 1)
        } else {
            e.t_hi
        };
        let t = (m.sample(e.t_lo), m.sample(t_hi));
        let top = m.top(e.f_hi, sr);
        let f = if log_freq {
            let below = m.bottom(e.f_lo).max(Single { bits: LOWEST_HZ });
            let lo = if e.f_lo.is_above_zero() && !below.le(e.f_lo) {
                e.f_lo
            } else {
                below
            };
            (lo, m.stretched(lo, top))
        } else {
            (Single { bits: 0 }, top)
        };
        let mut g = edges(m, t, n_t, f, n_f, log_freq, sr);
        let ghost plain = g;
        let (cols, rows): (usize, usize) = (g.t_edges.len() - 1, g.f_edges.len() - 1);
        let t_end = m.sample(e.t_hi);
        if !g.t_edges[0].le(t.0) {
            g.t_edges.set(0, t.0);
        }
        if !t_end.le(g.t_edges[cols]) {
            g.t_edges.set(cols, t_end);
        }
        if e.f_lo.is_above_zero() && e.f_max.is_above_zero() && !g.f_edges[0].le(e.f_lo) {
            g.f_edges.set(0, e.f_lo);
        }
        if e.f_max.is_above_zero() && e.f_max.le(m.nyquist(sr)) && !e.f_max.le(g.f_edges[rows]) {
            g.f_edges.set(rows, e.f_max);
        }
        proof {
            assert(e == extent_of(m, sels, lens, sels.len() as int));
            assert(f == shown_range(m, e, sr, log_freq));
            assert(cols == some(n_t) && rows == some(n_f));
            assert forall|i: int| 0 <= i <= cols implies #[trigger] g.t_edges@[i] == outward(
                (t.0, t_end),
                plain.t_edges@[i],
                i,
                cols as int,
            ) by {}
            assert(g.t_edges@ =~= Seq::new(
                (cols + 1) as nat,
                |i: int|
                    outward((t.0, t_end), m.t_edge_of(t.0, t.1, i as usize, cols), i, cols as int),
            ));
            assert forall|i: int| 0 <= i <= rows implies #[trigger] g.f_edges@[i] == outward_hz(
                carriers_shown(m, e, sr),
                plain.f_edges@[i],
                i,
                rows as int,
            ) by {}
            assert(g.f_edges@ =~= Seq::new(
                (rows + 1) as nat,
                |i: int|
                    outward_hz(
                        carriers_shown(m, e, sr),
                        if log_freq {
                            m.f_edge_log_of(f.0, f.1, i as usize, rows)
                        } else {
                            m.f_edge_of(f.0, f.1, i as usize, rows)
                        },
                        i,
                        rows as int,
                    ),
            ));
            assert(covers(m, sels, lens, n_t, n_f, log_freq, sr, g));
        }
        Ok(g)
    }

    pub fn n_t(&self) -> (r: usize)
        requires
            self.wf(),
        ensures
            r == self.columns(),
    {
        self.t_edges.len() - 1
    }

    pub fn n_f(&self) -> (r: usize)
        requires
            self.wf(),
        ensures
            r == self.rows(),
    {
        self.f_edges.len() - 1
    }

    /// Width of the narrowest frequency bin an atom could land in, for sizing its transform.
    ///
    /// On a log axis the bins below a carrier are narrower than its own, and an atom's skirt reaches
    /// down into them.
    pub open spec fn narrowest<M: MapMath>(&self, m: &M) -> Single {
        if self.rows() >= 2 && m.uneven_of(self.f_edges@[0], self.f_edges@[1], self.f_edges@[2]) {
            m.width_of(self.f_edges@[0], self.f_edges@[1], 1)
        } else {
            m.width_of(self.f_edges@[0], self.f_edges@[self.rows()], self.rows() as usize)
        }
    }

    /// Width of the narrowest frequency bin an atom could land in.
    pub fn df_at<M: MapMath>(&self, m: &M) -> (r: Single)
        requires
            m.repeatable(),
            self.wf(),
        ensures
            r == self.narrowest(m),
    {
        let n: usize = self.n_f();
        if n >= 2 && m.uneven(self.f_edges[0], self.f_edges[1], self.f_edges[2]) {
            m.width(self.f_edges[0], self.f_edges[1], 1)
        } else {
            m.width(self.f_edges[0], self.f_edges[n], n)
        }
    }

    /// The bin containing time `t`, or none outside the axis.
    pub open spec fn bin_of<M: MapMath>(&self, m: &M, t: Double) -> Option<int> {
        let (lo, hi) = (self.t_edges@[0], self.t_edges@[self.columns()]);
        if t.less(lo) || hi.at_most(t) {
            None
        } else {
            let i = m.column_of(t, lo, hi, self.columns() as usize);
            Some(
                if i < self.columns() {
                    i as int
                } else {
                    self.columns() - 1
                },
            )
        }
    }

    /// Bin containing `t` samples, or `None` outside the axis.
    pub fn t_bin<M: MapMath>(&self, m: &M, t: Double) -> (r: Option<usize>)
        requires
            m.repeatable(),
            self.wf(),
        ensures
            match r {
                Some(i) => self.bin_of(m, t) == Some(i as int) && i < self.columns(),
                None => self.bin_of(m, t) is None,
            },
    {
        let n: usize = self.n_t();
        let lo = self.t_edges[0];
        let hi = self.t_edges[n];
        if t.lt(lo) || hi.le(t) {
            return None;
        }
        let i: usize = m.column(t, lo, hi, n);
        Some(
            if i < n {
                i
            } else {
                n - 1
            },
        )
    }
}

// ---------------------------------------------------------------------------------------------
// one atom
// ---------------------------------------------------------------------------------------------

/// The energy an atom is mapped with.
pub open spec fn weight_of<M: MapMath>(m: &M, sel: Selection, env: EnvelopeView, w: Weight) -> Double {
    match w {
        Weight::EnergyRemoved => sel.energy_removed,
        Weight::HrScore => match sel.hr_score {
            Some(s) => s,
            None => sel.energy_removed,
        },
        Weight::AtomEnergy => m.atom_energy_of(sel.atom.amp, env.energy),
    }
}

/// The number is one of the zeros.
pub open spec fn is_nil(x: Double) -> bool {
    x.magnitude() == 0
}

fn nil(x: Double) -> (r: bool)
    ensures
        r == is_nil(x),
{
    x.bits == 0 || x.bits == 0x8000_0000_0000_0000
}

/// The time bin sample `n` of an atom falls in, if it carries anything and is on the axis.
pub open spec fn lands<M: MapMath>(m: &M, g: MapGrid, t0: i64, env: Seq<Single>, n: int) -> Option<
    int,
> {
    if is_nil(m.square_of(env[n])) {
        None
    } else {
        g.bin_of(m, m.instant_of(t0, n as usize))
    }
}

/// Sample `n` carries something and is off the axis.
pub open spec fn misses<M: MapMath>(m: &M, g: MapGrid, t0: i64, env: Seq<Single>, n: int) -> bool {
    !is_nil(m.square_of(env[n])) && g.bin_of(m, m.instant_of(t0, n as usize)) is None
}

/// The power the first `n` samples leave in time bin `i`.
pub open spec fn power_in<M: MapMath>(
    m: &M,
    g: MapGrid,
    t0: i64,
    env: Seq<Single>,
    i: int,
    n: int,
) -> Double
    decreases n,
{
    if n <= 0 {
        Double { bits: 0 }
    } else {
        let before = power_in(m, g, t0, env, i, n - 1);
        if lands(m, g, t0, env, n - 1) == Some(i) {
            m.plus_of(before, m.square_of(env[n - 1]))
        } else {
            before
        }
    }
}

/// The power the first `n` samples leave on the axis when `inside`, and off it when not.
pub open spec fn power_kept<M: MapMath>(
    m: &M,
    g: MapGrid,
    t0: i64,
    env: Seq<Single>,
    inside: bool,
    n: int,
) -> Double
    decreases n,
{
    if n <= 0 {
        Double { bits: 0 }
    } else {
        let before = power_kept(m, g, t0, env, inside, n - 1);
        if (inside && lands(m, g, t0, env, n - 1) is Some) || (!inside && misses(
            m,
            g,
            t0,
            env,
            n - 1,
        )) {
            m.plus_of(before, m.square_of(env[n - 1]))
        } else {
            before
        }
    }
}

/// The time bins an atom's first `n` samples land in, from the first to the last.
pub open spec fn landed<M: MapMath>(m: &M, g: MapGrid, t0: i64, env: Seq<Single>, n: int) -> Option<
    (int, int),
>
    decreases n,
{
    if n <= 0 {
        None
    } else {
        let before = landed(m, g, t0, env, n - 1);
        match (before, lands(m, g, t0, env, n - 1)) {
            (None, None) => None,
            (None, Some(i)) => Some((i, i)),
            (Some(span), None) => Some(span),
            (Some((a, b)), Some(i)) => Some(
                (
                    if i < a {
                        i
                    } else {
                        a
                    },
                    if i > b {
                        i
                    } else {
                        b
                    },
                ),
            ),
        }
    }
}

/// An atom's power, binned in time.
struct TimePart {
    bins: Vec<Double>,
    inside: Double,
    outside: Double,
    span: Option<(usize, usize)>,
}

fn time_part<M: MapMath>(m: &M, g: &MapGrid, t0: i64, env: &[Single]) -> (r: TimePart)
    requires
        m.repeatable(),
        g.wf(),
    ensures
        r.bins@.len() == g.columns(),
        forall|i: int|
            0 <= i < g.columns() ==> #[trigger] r.bins@[i] == power_in(
                m,
                *g,
                t0,
                env@,
                i,
                env@.len() as int,
            ),
        r.inside == power_kept(m, *g, t0, env@, true, env@.len() as int),
        r.outside == power_kept(m, *g, t0, env@, false, env@.len() as int),
        match r.span {
            Some((a, b)) => landed(m, *g, t0, env@, env@.len() as int) == Some(
                (a as int, b as int),
            ) && a <= b < g.columns(),
            None => landed(m, *g, t0, env@, env@.len() as int) is None && r.inside.bits == 0,
        },
{
    let n_t: usize = g.n_t();
    let mut bins: Vec<Double> = Vec::new();
    let mut i: usize = 0;
    while i < n_t
        invariant
            i <= n_t,
            bins@.len() == i,
            forall|j: int| 0 <= j < i ==> (#[trigger] bins@[j]).bits == 0,
        decreases n_t - i,
    {
        bins.push(Double { bits: 0 });
        i += 1;
    }
    let mut inside = Double { bits: 0 };
    let mut outside = Double { bits: 0 };
    let mut span: Option<(usize, usize)> = None;
    let mut n: usize = 0;
    while n < env.len()
        invariant
            m.repeatable(),
            g.wf(),
            n_t == g.columns(),
            n <= env@.len(),
            bins@.len() == n_t,
            forall|i: int|
                0 <= i < n_t ==> #[trigger] bins@[i] == power_in(m, *g, t0, env@, i, n as int),
            inside == power_kept(m, *g, t0, env@, true, n as int),
            outside == power_kept(m, *g, t0, env@, false, n as int),
            match span {
                Some((a, b)) => landed(m, *g, t0, env@, n as int) == Some((a as int, b as int)) && a
                    <= b < n_t,
                None => landed(m, *g, t0, env@, n as int) is None && inside.bits == 0,
            },
        decreases env@.len() - n,
    {
        let p = m.square(env[n]);
        if !nil(p) {
            let t = m.instant(t0, n);
            match g.t_bin(m, t) {
                Some(i) => {
                    let more = m.plus(bins[i], p);
                    bins.set(i, more);
                    inside = m.plus(inside, p);
                    span = match span {
                        None => Some((i, i)),
                        Some((a, b)) => Some(
                            (
                                if i < a {
                                    i
                                } else {
                                    a
                                },
                                if i > b {
                                    i
                                } else {
                                    b
                                },
                            ),
                        ),
                    };
                },
                None => {
                    outside = m.plus(outside, p);
                },
            }
        }
        n += 1;
    }
    TimePart { bins, inside, outside, span }
}

/// The transform length for one atom.
pub open spec fn transform_len<M: MapMath>(
    m: &M,
    support: int,
    df: Single,
    sample_rate: Single,
    oversample: usize,
) -> usize {
    let by_support = support * some(oversample);
    let by_display = if df.above_zero() {
        m.display_len_of(df, sample_rate) as int
    } else {
        0
    };
    let wanted = if by_support >= by_display {
        by_support
    } else {
        by_display
    };
    m.fast_len_of(
        if wanted < MAX_FFT_LEN {
            wanted as usize
        } else {
            MAX_FFT_LEN
        },
    )
}

/// The transform length for one atom: enough fine bins across its bandwidth and across the display's
/// narrowest bin, up to a limit.
pub fn pad_len<M: MapMath>(
    m: &M,
    support: usize,
    df: Single,
    sample_rate: Single,
    oversample: usize,
) -> (r: usize)
    requires
        m.repeatable(),
    ensures
        r == transform_len(m, support as int, df, sample_rate, oversample),
{
    let times: usize = at_least_one(oversample);
    assert(support * times >= support) by (nonlinear_arith)
        requires
            times >= 1,
            support >= 0,
    ;
    assert(0 <= support as u128 * times as u128 <= 0xffff_ffff_ffff_ffff * 0xffff_ffff_ffff_ffff)
        by (nonlinear_arith)
        requires
            0 <= support as u128 <= 0xffff_ffff_ffff_ffff,
            0 <= times as u128 <= 0xffff_ffff_ffff_ffff,
    ;
    let by_support: u128 = support as u128 * times as u128;
    let by_display: u128 = if df.is_above_zero() {
        m.display_len(df, sample_rate) as u128
    } else {
        0
    };
    let wanted: u128 = if by_support >= by_display {
        by_support
    } else {
        by_display
    };
    let wanted: usize = if wanted < MAX_FFT_LEN as u128 {
        wanted as usize
    } else {
        MAX_FFT_LEN
    };
    m.fast_len(wanted)
}

/// The running integral of a spectrum at a real bin, held to the table's ends and blended between its
/// entries.
pub open spec fn integral_at<M: MapMath>(m: &M, table: Seq<Double>, x: Double) -> Double {
    let last = table.len() - 1;
    let top = m.whole_of(last as usize);
    let held = if x.less(Double { bits: 0 }) {
        Double { bits: 0 }
    } else if top.less(x) {
        top
    } else {
        x
    };
    let i = m.below_of(held);
    if i >= last {
        table[last]
    } else {
        m.blend_of(table[i as int], table[i + 1], held, i)
    }
}

fn integral<M: MapMath>(m: &M, table: &[Double], x: Double) -> (r: Double)
    requires
        m.repeatable(),
        table@.len() >= 1,
    ensures
        r == integral_at(m, table@, x),
{
    let last: usize = table.len() - 1;
    let top = m.whole(last);
    let zero = Double { bits: 0 };
    let held = if x.lt(zero) {
        zero
    } else if top.lt(x) {
        top
    } else {
        x
    };
    let i: usize = m.below(held);
    if i >= last {
        table[last]
    } else {
        m.blend(table[i], table[i + 1], held, i)
    }
}

/// The integral at a frequency edge.
pub open spec fn edge_integral<M: MapMath>(
    m: &M,
    g: MapGrid,
    sample_rate: Single,
    table: Seq<Double>,
    n_fft: usize,
    j: int,
) -> Double {
    integral_at(m, table, m.bin_at_of(g.f_edges@[j], n_fft, sample_rate))
}

/// The spectral mass in frequency bin `j`, zero where it is under the floor.
pub open spec fn mass_in<M: MapMath>(
    m: &M,
    g: MapGrid,
    sample_rate: Single,
    table: Seq<Double>,
    n_fft: usize,
    floor: Double,
    j: int,
) -> Double {
    let gone = m.minus_of(
        edge_integral(m, g, sample_rate, table, n_fft, j + 1),
        edge_integral(m, g, sample_rate, table, n_fft, j),
    );
    let mass = gone.larger(Double { bits: 0 });
    if floor.less(mass) {
        mass
    } else {
        Double { bits: 0 }
    }
}

/// The frequency bin holds something.
pub open spec fn lit<M: MapMath>(
    m: &M,
    g: MapGrid,
    sample_rate: Single,
    table: Seq<Double>,
    n_fft: usize,
    floor: Double,
    j: int,
) -> bool {
    let gone = m.minus_of(
        edge_integral(m, g, sample_rate, table, n_fft, j + 1),
        edge_integral(m, g, sample_rate, table, n_fft, j),
    );
    floor.less(gone.larger(Double { bits: 0 }))
}

/// The spectral mass the first `n` frequency bins hold.
pub open spec fn mass_through<M: MapMath>(
    m: &M,
    g: MapGrid,
    sample_rate: Single,
    table: Seq<Double>,
    n_fft: usize,
    floor: Double,
    n: int,
) -> Double
    decreases n,
{
    if n <= 0 {
        Double { bits: 0 }
    } else {
        let before = mass_through(m, g, sample_rate, table, n_fft, floor, n - 1);
        if lit(m, g, sample_rate, table, n_fft, floor, n - 1) {
            m.plus_of(before, mass_in(m, g, sample_rate, table, n_fft, floor, n - 1))
        } else {
            before
        }
    }
}

/// An atom's spectrum, binned in frequency.
struct FreqPart {
    bins: Vec<Double>,
    inside: Double,
}

fn freq_part<M: MapMath>(
    m: &M,
    g: &MapGrid,
    sample_rate: Single,
    table: &[Double],
    n_fft: usize,
    floor: Double,
) -> (r: FreqPart)
    requires
        m.repeatable(),
        g.wf(),
        table@.len() >= 1,
    ensures
        r.bins@.len() == g.rows(),
        forall|j: int|
            0 <= j < g.rows() ==> #[trigger] r.bins@[j] == mass_in(m, *g, sample_rate, table@, n_fft, floor, j),
        r.inside == mass_through(m, *g, sample_rate, table@, n_fft, floor, g.rows()),
{
    let n_f: usize = g.n_f();
    let mut bins: Vec<Double> = Vec::new();
    let mut inside = Double { bits: 0 };
    let x = m.bin_at(g.f_edges[0], n_fft, sample_rate);
    let mut prev = integral(m, table, x);
    let mut j: usize = 0;
    while j < n_f
        invariant
            m.repeatable(),
            g.wf(),
            n_f == g.rows(),
            table@.len() >= 1,
            j <= n_f,
            prev == edge_integral(m, *g, sample_rate, table@, n_fft, j as int),
            bins@.len() == j,
            forall|i: int|
                0 <= i < j ==> #[trigger] bins@[i] == mass_in(m, *g, sample_rate, table@, n_fft, floor, i),
            inside == mass_through(m, *g, sample_rate, table@, n_fft, floor, j as int),
        decreases n_f - j,
    {
        let x = m.bin_at(g.f_edges[j + 1], n_fft, sample_rate);
        let next = integral(m, table, x);
        let mass = m.minus(next, prev).max(Double { bits: 0 });
        prev = next;
        if floor.lt(mass) {
            bins.push(mass);
            inside = m.plus(inside, mass);
        } else {
            bins.push(Double { bits: 0 });
        }
        j += 1;
    }
    FreqPart { bins, inside }
}

/// The first of the values from `from` on that is above zero, or their count.
pub open spec fn first_lit(v: Seq<Double>, from: int) -> int
    decreases v.len() - from,
{
    if from >= v.len() || v[from].positive() {
        from
    } else {
        first_lit(v, from + 1)
    }
}

/// The last of the first `n` values that is above zero, or -1.
pub open spec fn last_lit(v: Seq<Double>, n: int) -> int
    decreases n,
{
    if n <= 0 {
        -1
    } else if v[n - 1].positive() {
        n - 1
    } else {
        last_lit(v, n - 1)
    }
}

/// The stretch of the values from the first above zero to the last, if any is.
fn lit_span(v: &[Double]) -> (r: Option<(usize, usize)>)
    ensures
        match r {
            Some((a, b)) => a == first_lit(v@, 0) && b == last_lit(v@, v@.len() as int) && a <= b
                < v@.len(),
            None => first_lit(v@, 0) == v@.len(),
        },
{
    let n: usize = v.len();
    let mut a: usize = 0;
    while a < n && !v[a].is_positive()
        invariant
            n == v@.len(),
            a <= n,
            first_lit(v@, 0) == first_lit(v@, a as int),
        decreases n - a,
    {
        a += 1;
    }
    if a >= n {
        return None;
    }
    let mut above: usize = n;
    while above > a + 1 && !v[above - 1].is_positive()
        invariant
            n == v@.len(),
            a < above <= n,
            v@[a as int].positive(),
            last_lit(v@, n as int) == last_lit(v@, above as int),
        decreases above,
    {
        above -= 1;
    }
    Some((a, above - 1))
}

/// `v[a ..= b]`, each over `total`.
pub open spec fn shares<M: MapMath>(m: &M, v: Seq<Double>, a: int, b: int, total: Double) -> Seq<
    Double,
> {
    Seq::new((b - a + 1) as nat, |i: int| m.over_of(v[a + i], total))
}

fn shares_of<M: MapMath>(m: &M, v: &[Double], a: usize, b: usize, total: Double) -> (r: Vec<Double>)
    requires
        m.repeatable(),
        a <= b < v@.len(),
    ensures
        r@ == shares(m, v@, a as int, b as int, total),
{
    let mut out: Vec<Double> = Vec::new();
    let mut i: usize = a;
    assert(v.len() == v@.len());
    while i <= b
        invariant
            m.repeatable(),
            v.len() == v@.len(),
            a <= i <= b + 1,
            b < v@.len(),
            out@.len() == i - a,
            forall|k: int| 0 <= k < out@.len() ==> #[trigger] out@[k] == m.over_of(v@[a + k], total),
        decreases b + 1 - i,
    {
        out.push(m.over(v[i], total));
        i += 1;
    }
    assert(out@ =~= shares(m, v@, a as int, b as int, total));
    out
}

/// A whole atom off the grid.
pub open spec fn is_clipped(k: AtomKernel, weight: Double) -> bool {
    &&& k.t_lo == 0
    &&& k.time@.len() == 0
    &&& k.f_lo == 0
    &&& k.freq@.len() == 0
    &&& k.weight == weight
    &&& k.clipped == weight
}

/// An atom's kernel: nothing where it carries no usable energy or no spectrum; all of it clipped where
/// it misses the grid on either axis; otherwise the two marginals, each as fractions of the whole.
pub open spec fn is_kernel<M: MapMath>(
    m: &M,
    sel: Selection,
    env: EnvelopeView,
    sample_rate: Single,
    g: MapGrid,
    opts: MapOptions,
    r: Option<AtomKernel>,
) -> bool {
    let weight = weight_of(m, sel, env, opts.weight);
    let n = env.samples.len() as int;
    let t0 = sel.atom.t0;
    let inside = power_kept(m, g, t0, env.samples, true, n);
    let whole = m.plus_of(inside, power_kept(m, g, t0, env.samples, false, n));
    let n_fft = transform_len(m, n, g.narrowest(m), sample_rate, opts.spec_oversample);
    let table = m.table_of(sel, sample_rate, n as usize, n_fft);
    let total = table.last();
    let floor = m.times_of(opts.cell_floor, total);
    let masses = Seq::new(
        g.rows() as nat,
        |j: int| mass_in(m, g, sample_rate, table, n_fft, floor, j),
    );
    let f_inside = mass_through(m, g, sample_rate, table, n_fft, floor, g.rows());
    if !(weight.finite() && weight.positive()) {
        r is None
    } else if landed(m, g, t0, env.samples, n) is None || inside.at_most(Double { bits: 0 }) {
        r matches Some(k) && is_clipped(k, weight)
    } else if table.len() == 0 || total.at_most(Double { bits: 0 }) {
        r is None
    } else if f_inside.at_most(Double { bits: 0 }) || first_lit(masses, 0) == masses.len() {
        r matches Some(k) && is_clipped(k, weight)
    } else {
        let (a, b) = landed(m, g, t0, env.samples, n)->0;
        let (c, d) = (first_lit(masses, 0), last_lit(masses, masses.len() as int));
        let powers = Seq::new(
            g.columns() as nat,
            |i: int| power_in(m, g, t0, env.samples, i, n),
        );
        let kept = m.times_of(m.over_of(inside, whole), m.over_of(f_inside, total));
        r matches Some(k) && {
            &&& k.t_lo == a
            &&& k.time@ == shares(m, powers, a, b, whole)
            &&& k.f_lo == c
            &&& k.freq@ == shares(m, masses, c, d, total)
            &&& k.weight == weight
            &&& k.clipped == m.times_of(weight, m.minus_of(Double { bits: ONE }, kept))
        }
    }
}

/// The kernel lies on the grid.
pub open spec fn on_grid(k: AtomKernel, n_t: int, n_f: int) -> bool {
    k.t_lo + k.time@.len() <= n_t && k.f_lo + k.freq@.len() <= n_f
}

fn clipped_kernel(weight: Double) -> (r: AtomKernel)
    ensures
        is_clipped(r, weight),
{
    AtomKernel { t_lo: 0, time: Vec::new(), f_lo: 0, freq: Vec::new(), weight, clipped: weight }
}

/// One atom's separable kernel at a book's sample rate, or `None` if there is nothing of it to map.
/// Fails where the atom cannot be rendered.
pub fn atom_kernel<M: MapMath>(
    m: &M,
    sel: &Selection,
    sample_rate: Single,
    grid: &MapGrid,
    opts: &MapOptions,
) -> (r: Result<Option<AtomKernel>, FofError>)
    requires
        m.repeatable(),
        grid.wf(),
    ensures
        match (m.render_of(sel.atom.env, sample_rate), r) {
            (Ok(env), Ok(k)) => is_kernel(m, *sel, env, sample_rate, *grid, *opts, k),
            (Err(e), Err(f)) => e == f,
            _ => false,
        },
        r matches Ok(Some(k)) ==> on_grid(k, grid.columns(), grid.rows()),
{
    let env = match m.render(sel.atom.env, sample_rate) {
        Ok(env) => env,
        Err(e) => {
            return Err(e);
        },
    };
    let support: usize = env.support_len();
    let weight = match opts.weight {
        Weight::EnergyRemoved => sel.energy_removed,
        Weight::HrScore => match sel.hr_score {
            Some(s) => s,
            None => sel.energy_removed,
        },
        Weight::AtomEnergy => m.atom_energy(sel.atom.amp, env.energy),
    };
    // Rejects NaN as well as zero: a book can be edited by hand, and a NaN weight would poison every
    // cell it touched.
    if !(weight.is_finite() && weight.is_positive()) {
        return Ok(None);
    }
    let zero = Double { bits: 0 };
    let time = time_part(m, grid, sel.atom.t0, env.samples.as_slice());
    let (a, b) = match time.span {
        Some(span) => span,
        None => {
            return Ok(Some(clipped_kernel(weight)));
        },
    };
    if time.inside.le(zero) {
        return Ok(Some(clipped_kernel(weight)));
    }
    // Normalized by the atom's whole power, so the slice already carries the axis's own clipping.
    let whole = m.plus(time.inside, time.outside);
    let time_kept = m.over(time.inside, whole);
    let time_shares = shares_of(m, time.bins.as_slice(), a, b, whole);
    let ghost powers = Seq::new(
        grid.columns() as nat,
        |i: int| power_in(m, *grid, sel.atom.t0, env.samples@, i, env.samples@.len() as int),
    );
    assert(time.bins@ =~= powers);

    let df = grid.df_at(m);
    let n_fft: usize = pad_len(m, support, df, sample_rate, opts.spec_oversample);
    let table = m.table(*sel, sample_rate, support, n_fft);
    if table.len() == 0 {
        return Ok(None);
    }
    let total = table[table.len() - 1];
    if total.le(zero) {
        return Ok(None);
    }
    let floor = m.times(opts.cell_floor, total);
    let freq = freq_part(m, grid, sample_rate, table.as_slice(), n_fft, floor);
    let ghost masses = Seq::new(
        grid.rows() as nat,
        |j: int| mass_in(m, *grid, sample_rate, table@, n_fft, floor, j),
    );
    assert(freq.bins@ =~= masses);
    if freq.inside.le(zero) {
        return Ok(Some(clipped_kernel(weight)));
    }
    let (c, d) = match lit_span(freq.bins.as_slice()) {
        Some(span) => span,
        None => {
            return Ok(Some(clipped_kernel(weight)));
        },
    };
    let freq_kept = m.over(freq.inside, total);
    let freq_shares = shares_of(m, freq.bins.as_slice(), c, d, total);
    let kept = m.times(time_kept, freq_kept);
    let lost = m.minus(Double { bits: ONE }, kept);
    let clipped = m.times(weight, lost);
    Ok(
        Some(
            AtomKernel {
                t_lo: a,
                time: time_shares,
                f_lo: c,
                freq: freq_shares,
                weight,
                clipped,
            },
        ),
    )
}

// ---------------------------------------------------------------------------------------------
// the whole map
// ---------------------------------------------------------------------------------------------

/// A cell of a map after one more kernel: its own product added where the kernel covers it.
pub open spec fn cell_after<M: MapMath>(
    m: &M,
    k: AtomKernel,
    cell: Double,
    i: int,
    j: int,
) -> Double {
    if k.t_lo <= i < k.t_lo + k.time@.len() && k.f_lo <= j < k.f_lo + k.freq@.len() && !is_nil(
        k.time@[i - k.t_lo],
    ) {
        m.plus_of(
            cell,
            m.times_of(m.times_of(k.weight, k.time@[i - k.t_lo]), k.freq@[j - k.f_lo]),
        )
    } else {
        cell
    }
}

/// Two cells of a grid are one only if their rows and columns are.
proof fn lemma_cell(i: int, j: int, a: int, b: int, n_f: int)
    requires
        0 <= j < n_f,
        0 <= b < n_f,
        i * n_f + j == a * n_f + b,
    ensures
        i == a,
        j == b,
{
    if i < a {
        assert((i + 1) * n_f <= a * n_f) by (nonlinear_arith)
            requires
                i + 1 <= a,
                n_f >= 0,
        ;
        assert((i + 1) * n_f == i * n_f + n_f) by (nonlinear_arith);
    } else if a < i {
        assert((a + 1) * n_f <= i * n_f) by (nonlinear_arith)
            requires
                a + 1 <= i,
                n_f >= 0,
        ;
        assert((a + 1) * n_f == a * n_f + n_f) by (nonlinear_arith);
    }
}

/// A cell of a grid is inside it.
proof fn lemma_inside(i: int, j: int, n_t: int, n_f: int)
    requires
        0 <= i < n_t,
        0 <= j < n_f,
    ensures
        0 <= i * n_f,
        i * n_f + j < n_t * n_f,
        i * n_f + n_f <= n_t * n_f,
{
    assert((i + 1) * n_f <= n_t * n_f) by (nonlinear_arith)
        requires
            i + 1 <= n_t,
            n_f >= 0,
    ;
    assert((i + 1) * n_f == i * n_f + n_f) by (nonlinear_arith);
    assert(0 <= i * n_f) by (nonlinear_arith)
        requires
            i >= 0,
            n_f >= 0,
    ;
}

/// Every cell of a grid is what `value` says.
pub open spec fn cells_are(
    cells: Seq<Double>,
    n_t: int,
    n_f: int,
    value: spec_fn(int, int) -> Double,
) -> bool {
    &&& cells.len() == n_t * n_f
    &&& forall|i: int, j: int|
        0 <= i < n_t && 0 <= j < n_f ==> cells[#[trigger] at(i, j, n_f)] == value(i, j)
}

/// Where a cell is stored.
pub open spec fn at(i: int, j: int, n_f: int) -> int {
    i * n_f + j
}

/// Accumulate one kernel into the grid.
pub fn accumulate<M: MapMath>(m: &M, cells: &mut Vec<Double>, n_t: usize, n_f: usize, k: &AtomKernel)
    requires
        m.repeatable(),
        old(cells)@.len() == n_t * n_f,
        on_grid(*k, n_t as int, n_f as int),
    ensures
        final(cells)@.len() == n_t * n_f,
        forall|i: int, j: int|
            0 <= i < n_t && 0 <= j < n_f ==> final(cells)@[#[trigger] at(i, j, n_f as int)]
                == cell_after(m, *k, old(cells)@[at(i, j, n_f as int)], i, j),
{
    let ghost before = cells@;
    let mut di: usize = 0;
    while di < k.time.len()
        invariant
            m.repeatable(),
            di <= k.time@.len(),
            cells@.len() == n_t * n_f,
            before.len() == n_t * n_f,
            on_grid(*k, n_t as int, n_f as int),
            forall|i: int, j: int|
                0 <= i < n_t && 0 <= j < n_f ==> cells@[#[trigger] at(i, j, n_f as int)] == if i
                    < k.t_lo + di {
                    cell_after(m, *k, before[at(i, j, n_f as int)], i, j)
                } else {
                    before[at(i, j, n_f as int)]
                },
        decreases k.time@.len() - di,
    {
        let pt = k.time[di];
        if !nil(pt) {
            let w = m.times(k.weight, pt);
            let row: usize = k.t_lo + di;
            let mut dj: usize = 0;
            while dj < k.freq.len()
                invariant
                    m.repeatable(),
                    di < k.time@.len(),
                    row == k.t_lo + di,
                    dj <= k.freq@.len(),
                    pt == k.time@[di as int],
                    !is_nil(pt),
                    w == m.times_of(k.weight, pt),
                    cells@.len() == n_t * n_f,
                    before.len() == n_t * n_f,
                    on_grid(*k, n_t as int, n_f as int),
                    forall|i: int, j: int|
                        0 <= i < n_t && 0 <= j < n_f ==> cells@[#[trigger] at(i, j, n_f as int)]
                            == if i < row || (i == row && j < k.f_lo + dj) {
                            cell_after(m, *k, before[at(i, j, n_f as int)], i, j)
                        } else {
                            before[at(i, j, n_f as int)]
                        },
                decreases k.freq@.len() - dj,
            {
                let col: usize = k.f_lo + dj;
                proof {
                    lemma_inside(row as int, col as int, n_t as int, n_f as int);
                    assert(cells.len() == cells@.len());
                }
                let c: usize = row * n_f + col;
                let mass = m.times(w, k.freq[dj]);
                let ghost was = cells@;
                let more = m.plus(cells[c], mass);
                cells.set(c, more);
                proof {
                    assert(c == at(row as int, col as int, n_f as int));
                    assert forall|i: int, j: int| 0 <= i < n_t && 0 <= j < n_f implies cells@[
                    #[trigger] at(i, j, n_f as int)] == if i < row || (i == row && j < k.f_lo + dj
                        + 1) {
                        cell_after(m, *k, before[at(i, j, n_f as int)], i, j)
                    } else {
                        before[at(i, j, n_f as int)]
                    } by {
                        lemma_inside(i, j, n_t as int, n_f as int);
                        if at(i, j, n_f as int) == c {
                            lemma_cell(i, j, row as int, col as int, n_f as int);
                        } else {
                            assert(cells@[at(i, j, n_f as int)] == was[at(i, j, n_f as int)]);
                        }
                    }
                }
                dj += 1;
            }
        }
        di += 1;
    }
}

/// What came of each selection's kernel.
pub open spec fn kernels_are<M: MapMath>(
    m: &M,
    sels: Seq<Selection>,
    sample_rate: Single,
    g: MapGrid,
    opts: MapOptions,
    ks: Seq<Result<Option<AtomKernel>, FofError>>,
) -> bool {
    &&& ks.len() == sels.len()
    &&& forall|i: int|
        0 <= i < ks.len() ==> match (m.render_of(sels[i].atom.env, sample_rate), #[trigger] ks[i]) {
            (Ok(env), Ok(k)) => is_kernel(m, sels[i], env, sample_rate, g, opts, k),
            (Err(e), Err(f)) => e == f,
            _ => false,
        }
}

/// A cell after the first `n` selections' kernels, added in book order.
pub open spec fn cell_through<M: MapMath>(
    m: &M,
    ks: Seq<Result<Option<AtomKernel>, FofError>>,
    i: int,
    j: int,
    n: int,
) -> Double
    decreases n,
{
    if n <= 0 {
        Double { bits: 0 }
    } else {
        let before = cell_through(m, ks, i, j, n - 1);
        match ks[n - 1] {
            Ok(Some(k)) => cell_after(m, k, before, i, j),
            _ => before,
        }
    }
}

/// The energy the first `n` kernels left on the grid when `kept`, and off it when not.
pub open spec fn energy_through<M: MapMath>(
    m: &M,
    ks: Seq<Result<Option<AtomKernel>, FofError>>,
    kept: bool,
    n: int,
) -> Double
    decreases n,
{
    if n <= 0 {
        Double { bits: 0 }
    } else {
        let before = energy_through(m, ks, kept, n - 1);
        match ks[n - 1] {
            Ok(Some(k)) => m.plus_of(
                before,
                if kept {
                    m.minus_of(k.weight, k.clipped)
                } else {
                    k.clipped
                },
            ),
            _ => before,
        }
    }
}

/// How many of the first `n` selections have a kernel.
pub open spec fn mapped(ks: Seq<Result<Option<AtomKernel>, FofError>>, n: int) -> int
    decreases n,
{
    if n <= 0 {
        0
    } else {
        mapped(ks, n - 1) + (if ks[n - 1] matches Ok(Some(_)) {
            1int
        } else {
            0
        })
    }
}

/// A map of some kernels.
pub open spec fn is_map<M: MapMath>(
    m: &M,
    r: TfMap,
    g: MapGrid,
    ks: Seq<Result<Option<AtomKernel>, FofError>>,
) -> bool {
    let n = ks.len() as int;
    &&& r.grid == g
    &&& cells_are(
        r.cells@,
        g.columns(),
        g.rows(),
        |i: int, j: int| cell_through(m, ks, i, j, n),
    )
    &&& r.deposited == energy_through(m, ks, true, n)
    &&& r.clipped == energy_through(m, ks, false, n)
    &&& r.atoms == mapped(ks, n)
    &&& r.atoms + r.skipped == n
}

/// Fold kernels into a map, in their order.
pub fn fold_kernels<M: MapMath>(
    m: &M,
    grid: MapGrid,
    kernels: &[Result<Option<AtomKernel>, FofError>],
) -> (r: TfMap)
    requires
        m.repeatable(),
        grid.wf(),
        grid.columns() * grid.rows() <= usize::MAX,
        forall|i: int|
            0 <= i < kernels@.len() ==> ((#[trigger] kernels@[i]) matches Ok(Some(k)) ==> on_grid(
                k,
                grid.columns(),
                grid.rows(),
            )),
    ensures
        is_map(m, r, grid, kernels@),
{
    let n_t: usize = grid.n_t();
    let n_f: usize = grid.n_f();
    assert(n_t * n_f >= 0) by (nonlinear_arith);
    let size: usize = n_t * n_f;
    let mut cells: Vec<Double> = Vec::new();
    let mut c: usize = 0;
    while c < size
        invariant
            c <= size,
            cells@.len() == c,
            forall|i: int| 0 <= i < c ==> (#[trigger] cells@[i]).bits == 0,
        decreases size - c,
    {
        cells.push(Double { bits: 0 });
        c += 1;
    }
    let mut deposited = Double { bits: 0 };
    let mut clipped = Double { bits: 0 };
    let mut atoms: usize = 0;
    let mut skipped: usize = 0;
    proof {
        assert forall|i: int, j: int| 0 <= i < n_t && 0 <= j < n_f implies cells@[#[trigger] at(
            i,
            j,
            n_f as int,
        )] == cell_through(m, kernels@, i, j, 0) by {
            lemma_inside(i, j, n_t as int, n_f as int);
        }
    }
    let mut x: usize = 0;
    while x < kernels.len()
        invariant
            m.repeatable(),
            n_t == grid.columns(),
            n_f == grid.rows(),
            forall|i: int|
                0 <= i < kernels@.len() ==> ((#[trigger] kernels@[i]) matches Ok(Some(k)) ==> on_grid(
                    k,
                    grid.columns(),
                    grid.rows(),
                )),
            x <= kernels@.len(),
            cells@.len() == n_t * n_f,
            forall|i: int, j: int|
                0 <= i < n_t && 0 <= j < n_f ==> cells@[#[trigger] at(i, j, n_f as int)]
                    == cell_through(m, kernels@, i, j, x as int),
            deposited == energy_through(m, kernels@, true, x as int),
            clipped == energy_through(m, kernels@, false, x as int),
            atoms == mapped(kernels@, x as int),
            atoms + skipped == x,
        decreases kernels@.len() - x,
    {
        match &kernels[x] {
            // A render failure is a property of one atom, not of the book: count it and draw the
            // rest, rather than refusing to draw anything.
            Err(_) => {
                skipped += 1;
            },
            Ok(None) => {
                skipped += 1;
            },
            Ok(Some(k)) => {
                atoms += 1;
                let kept = m.minus(k.weight, k.clipped);
                deposited = m.plus(deposited, kept);
                clipped = m.plus(clipped, k.clipped);
                accumulate(m, &mut cells, n_t, n_f, k);
            },
        }
        x += 1;
    }
    TfMap { grid, cells, deposited, clipped, atoms, skipped }
}

/// Build the map.
///
/// The kernels are computed in parallel and folded in serially, in book order, so the result is
/// bit-identical regardless of thread count.
pub fn compute<M: MapMath + Sync>(m: &M, book: &Book, grid: MapGrid, opts: &MapOptions) -> (r: TfMap)
    requires
        m.repeatable(),
        grid.wf(),
        grid.columns() * grid.rows() <= usize::MAX,
    ensures
        exists|ks: Seq<Result<Option<AtomKernel>, FofError>>| #[trigger]
            kernels_are(m, book.selections@, book.sample_rate, grid, *opts, ks) && is_map(
                m,
                r,
                grid,
                ks,
            ),
{
    let sels = &book.selections;
    let sr = book.sample_rate;
    let g = &grid;
    let f = |i: usize| -> (k: Result<Option<AtomKernel>, FofError>)
        requires
            m.repeatable(),
            g.wf(),
            i < sels@.len(),
        ensures
            match (m.render_of(sels@[i as int].atom.env, sr), k) {
                (Ok(env), Ok(k)) => is_kernel(m, sels@[i as int], env, sr, *g, *opts, k),
                (Err(e), Err(f)) => e == f,
                _ => false,
            },
            k matches Ok(Some(k)) ==> on_grid(k, g.columns(), g.rows()),
        { atom_kernel(m, &sels[i], sr, g, opts) };
    let kernels = spread(sels.len(), f);
    assert(kernels_are(m, book.selections@, sr, grid, *opts, kernels@));
    fold_kernels(m, grid, kernels.as_slice())
}

// ---------------------------------------------------------------------------------------------
// reading it
// ---------------------------------------------------------------------------------------------

/// The running sum of the first `n` values.
pub open spec fn sum_through<M: MapMath>(m: &M, v: Seq<Double>, n: int) -> Double
    decreases n,
{
    if n <= 0 {
        Double { bits: 0 }
    } else {
        m.plus_of(sum_through(m, v, n - 1), v[n - 1])
    }
}

/// The energy in the first `n` frequency bins of a row.
pub open spec fn row_through<M: MapMath>(m: &M, cells: Seq<Double>, i: int, n_f: int, n: int) -> Double
    decreases n,
{
    if n <= 0 {
        Double { bits: 0 }
    } else {
        m.plus_of(row_through(m, cells, i, n_f, n - 1), cells[at(i, n - 1, n_f)])
    }
}

/// The energy in the first `n` time bins of a column.
pub open spec fn column_through<M: MapMath>(
    m: &M,
    cells: Seq<Double>,
    j: int,
    n_f: int,
    n: int,
) -> Double
    decreases n,
{
    if n <= 0 {
        Double { bits: 0 }
    } else {
        m.plus_of(column_through(m, cells, j, n_f, n - 1), cells[at(n - 1, j, n_f)])
    }
}

/// The largest of the first `n` values, and no less than zero.
pub open spec fn peak_through(v: Seq<Double>, n: int) -> Double
    decreases n,
{
    if n <= 0 {
        Double { bits: 0 }
    } else {
        peak_through(v, n - 1).larger(v[n - 1])
    }
}

impl TfMap {
    pub open spec fn wf(&self) -> bool {
        self.grid.wf() && self.cells@.len() == self.grid.columns() * self.grid.rows()
    }

    /// The energy in the map, added cell by cell.
    pub fn total<M: MapMath>(&self, m: &M) -> (r: Double)
        requires
            m.repeatable(),
        ensures
            r == sum_through(m, self.cells@, self.cells@.len() as int),
    {
        let mut sum = Double { bits: 0 };
        let mut i: usize = 0;
        while i < self.cells.len()
            invariant
                m.repeatable(),
                i <= self.cells@.len(),
                sum == sum_through(m, self.cells@, i as int),
            decreases self.cells@.len() - i,
        {
            sum = m.plus(sum, self.cells[i]);
            i += 1;
        }
        sum
    }

    /// A cell's energy per second per hertz.
    pub open spec fn density_at<M: MapMath>(&self, m: &M, i: int, j: int) -> Double {
        m.spread_of(
            self.cells@[at(i, j, self.grid.rows())],
            self.grid.t_edges@[0],
            self.grid.t_edges@[1],
            self.grid.f_edges@[j],
            self.grid.f_edges@[j + 1],
            self.grid.sample_rate,
        )
    }

    /// Energy per second per hertz.
    ///
    /// Always use this for display, not the raw cells: on a log-frequency axis the bin widths vary by
    /// more than an order of magnitude.
    pub fn density<M: MapMath>(&self, m: &M) -> (r: Vec<Double>)
        requires
            m.repeatable(),
            self.wf(),
        ensures
            r@.len() == self.cells@.len(),
            forall|i: int, j: int|
                0 <= i < self.grid.columns() && 0 <= j < self.grid.rows() ==> r@[#[trigger] at(
                    i,
                    j,
                    self.grid.rows(),
                )] == self.density_at(m, i, j),
    {
        let n_t: usize = self.grid.n_t();
        let n_f: usize = self.grid.n_f();
        let mut out: Vec<Double> = Vec::new();
        let mut i: usize = 0;
        assert(0 * n_f == 0) by (nonlinear_arith);
        while i < n_t
            invariant
                m.repeatable(),
                self.wf(),
                n_t == self.grid.columns(),
                n_f == self.grid.rows(),
                i <= n_t,
                out@.len() == i * n_f,
                forall|a: int, j: int|
                    0 <= a < i && 0 <= j < n_f ==> out@[#[trigger] at(a, j, n_f as int)]
                        == self.density_at(m, a, j),
            decreases n_t - i,
        {
            let mut j: usize = 0;
            while j < n_f
                invariant
                    m.repeatable(),
                    self.wf(),
                    n_t == self.grid.columns(),
                    n_f == self.grid.rows(),
                    i < n_t,
                    j <= n_f,
                    out@.len() == i * n_f + j,
                    forall|a: int, b: int|
                        0 <= b < n_f && (0 <= a < i || (a == i && b < j)) ==> out@[#[trigger] at(
                            a,
                            b,
                            n_f as int,
                        )] == self.density_at(m, a, b),
                decreases n_f - j,
            {
                proof {
                    lemma_inside(i as int, j as int, n_t as int, n_f as int);
                    assert(self.cells.len() == self.cells@.len());
                }
                let ghost was = out@;
                let c: usize = i * n_f + j;
                let v = m.spread(
                    self.cells[c],
                    self.grid.t_edges[0],
                    self.grid.t_edges[1],
                    self.grid.f_edges[j],
                    self.grid.f_edges[j + 1],
                    self.grid.sample_rate,
                );
                out.push(v);
                proof {
                    assert forall|a: int, b: int|
                        0 <= b < n_f && (0 <= a < i || (a == i && b < j + 1)) implies out@[
                    #[trigger] at(a, b, n_f as int)] == self.density_at(m, a, b) by {
                        if a == i && b == j {
                        } else {
                            if a < i {
                                assert((a + 1) * n_f <= i * n_f) by (nonlinear_arith)
                                    requires
                                        a + 1 <= i,
                                ;
                                assert((a + 1) * n_f == a * n_f + n_f) by (nonlinear_arith);
                                assert(a * n_f >= 0) by (nonlinear_arith)
                                    requires
                                        a >= 0,
                                ;
                            }
                            assert(out@[at(a, b, n_f as int)] == was[at(a, b, n_f as int)]);
                        }
                    }
                }
                j += 1;
            }
            assert((i + 1) * n_f == i * n_f + n_f) by (nonlinear_arith);
            i += 1;
        }
        out
    }

    /// Energy per time bin.
    pub fn time_marginal<M: MapMath>(&self, m: &M) -> (r: Vec<Double>)
        requires
            m.repeatable(),
            self.wf(),
        ensures
            r@.len() == self.grid.columns(),
            forall|i: int|
                0 <= i < r@.len() ==> #[trigger] r@[i] == row_through(
                    m,
                    self.cells@,
                    i,
                    self.grid.rows(),
                    self.grid.rows(),
                ),
    {
        let n_t: usize = self.grid.n_t();
        let n_f: usize = self.grid.n_f();
        let mut out: Vec<Double> = Vec::new();
        let mut i: usize = 0;
        while i < n_t
            invariant
                m.repeatable(),
                self.wf(),
                n_t == self.grid.columns(),
                n_f == self.grid.rows(),
                i <= n_t,
                out@.len() == i,
                forall|a: int|
                    0 <= a < i ==> #[trigger] out@[a] == row_through(
                        m,
                        self.cells@,
                        a,
                        n_f as int,
                        n_f as int,
                    ),
            decreases n_t - i,
        {
            let mut sum = Double { bits: 0 };
            let mut j: usize = 0;
            while j < n_f
                invariant
                    m.repeatable(),
                    self.wf(),
                    n_t == self.grid.columns(),
                    n_f == self.grid.rows(),
                    i < n_t,
                    j <= n_f,
                    sum == row_through(m, self.cells@, i as int, n_f as int, j as int),
                decreases n_f - j,
            {
                proof {
                    lemma_inside(i as int, j as int, n_t as int, n_f as int);
                    assert(self.cells.len() == self.cells@.len());
                }
                sum = m.plus(sum, self.cells[i * n_f + j]);
                j += 1;
            }
            out.push(sum);
            i += 1;
        }
        out
    }

    /// Energy per frequency bin.
    pub fn freq_marginal<M: MapMath>(&self, m: &M) -> (r: Vec<Double>)
        requires
            m.repeatable(),
            self.wf(),
        ensures
            r@.len() == self.grid.rows(),
            forall|j: int|
                0 <= j < r@.len() ==> #[trigger] r@[j] == column_through(
                    m,
                    self.cells@,
                    j,
                    self.grid.rows(),
                    self.grid.columns(),
                ),
    {
        let n_t: usize = self.grid.n_t();
        let n_f: usize = self.grid.n_f();
        let mut out: Vec<Double> = Vec::new();
        let mut j: usize = 0;
        while j < n_f
            invariant
                m.repeatable(),
                self.wf(),
                n_t == self.grid.columns(),
                n_f == self.grid.rows(),
                j <= n_f,
                out@.len() == j,
                forall|b: int|
                    0 <= b < j ==> #[trigger] out@[b] == column_through(
                        m,
                        self.cells@,
                        b,
                        n_f as int,
                        n_t as int,
                    ),
            decreases n_f - j,
        {
            let mut sum = Double { bits: 0 };
            let mut i: usize = 0;
            while i < n_t
                invariant
                    m.repeatable(),
                    self.wf(),
                    n_t == self.grid.columns(),
                    n_f == self.grid.rows(),
                    j < n_f,
                    i <= n_t,
                    sum == column_through(m, self.cells@, j as int, n_f as int, i as int),
                decreases n_t - i,
            {
                proof {
                    lemma_inside(i as int, j as int, n_t as int, n_f as int);
                    assert(self.cells.len() == self.cells@.len());
                }
                sum = m.plus(sum, self.cells[i * n_f + j]);
                i += 1;
            }
            out.push(sum);
            j += 1;
        }
        out
    }

    /// The level dB are measured against.
    pub open spec fn reference<M: MapMath>(&self, m: &M, d: Seq<Double>, r: Reference) -> Double {
        let peak = peak_through(d, d.len() as int);
        match r {
            Reference::Max => peak,
            Reference::Initial => m.even_level_of(
                m.plus_of(self.deposited, self.clipped),
                (self.grid.t_edges@[0], self.grid.t_edges@[self.grid.columns()]),
                (self.grid.f_edges@[0], self.grid.f_edges@[self.grid.rows()]),
                self.grid.sample_rate,
                peak,
            ),
        }
    }

    /// A density as it is shown: dB against a reference, from the floor up to zero.
    pub open spec fn shown<M: MapMath>(m: &M, v: Double, reference: Double, floor_db: Single) -> Single {
        if reference.at_most(Double { bits: 0 }) || v.at_most(Double { bits: 0 }) {
            m.negated_of(floor_db)
        } else {
            let db = m.decibels_of(v, reference, floor_db);
            if (Single { bits: 0 }).less(db) {
                Single { bits: 0 }
            } else {
                db
            }
        }
    }

    /// The density of every cell.
    pub open spec fn is_density<M: MapMath>(&self, m: &M, d: Seq<Double>) -> bool {
        &&& d.len() == self.cells@.len()
        &&& forall|i: int, j: int|
            0 <= i < self.grid.columns() && 0 <= j < self.grid.rows() ==> d[
            #[trigger] at(i, j, self.grid.rows())] == self.density_at(m, i, j)
    }

    /// The display value of every cell.
    pub open spec fn levels<M: MapMath>(
        &self,
        m: &M,
        floor_db: Single,
        r: Reference,
        out: Seq<Single>,
    ) -> bool {
        &&& out.len() == self.cells@.len()
        &&& exists|d: Seq<Double>| #[trigger]
            self.is_density(m, d) && forall|c: int|
                0 <= c < out.len() ==> #[trigger] out[c] == TfMap::shown(
                    m,
                    d[c],
                    self.reference(m, d, r),
                    floor_db,
                )
    }

    /// Display values: dB of the density against a reference, between the floor and zero.
    pub fn to_db<M: MapMath>(&self, m: &M, floor_db: Single, r: Reference) -> (out: Vec<Single>)
        requires
            m.repeatable(),
            self.wf(),
        ensures
            self.levels(m, floor_db, r, out@),
    {
        let d = self.density(m);
        let mut peak = Double { bits: 0 };
        let mut i: usize = 0;
        while i < d.len()
            invariant
                i <= d@.len(),
                peak == peak_through(d@, i as int),
            decreases d@.len() - i,
        {
            peak = peak.max(d[i]);
            i += 1;
        }
        let n_t: usize = self.grid.n_t();
        let n_f: usize = self.grid.n_f();
        let reference = match r {
            Reference::Max => peak,
            Reference::Initial => {
                let energy = m.plus(self.deposited, self.clipped);
                m.even_level(
                    energy,
                    (self.grid.t_edges[0], self.grid.t_edges[n_t]),
                    (self.grid.f_edges[0], self.grid.f_edges[n_f]),
                    self.grid.sample_rate,
                    peak,
                )
            },
        };
        assert(self.is_density(m, d@));
        assert(reference == self.reference(m, d@, r));
        let zero = Double { bits: 0 };
        let silent = reference.le(zero);
        let mut out: Vec<Single> = Vec::new();
        let mut i: usize = 0;
        while i < d.len()
            invariant
                m.repeatable(),
                i <= d@.len(),
                zero.bits == 0,
                silent == reference.at_most(zero),
                out@.len() == i,
                forall|c: int|
                    0 <= c < i ==> #[trigger] out@[c] == TfMap::shown(
                        m,
                        d@[c],
                        reference,
                        floor_db,
                    ),
            decreases d@.len() - i,
        {
            let v = d[i];
            let level = if silent || v.le(zero) {
                m.negated(floor_db)
            } else {
                let db = m.decibels(v, reference, floor_db);
                if (Single { bits: 0 }).lt(db) {
                    Single { bits: 0 }
                } else {
                    db
                }
            };
            out.push(level);
            i += 1;
        }
        out
    }
}

/// The levels a heat ramp's stops stand at.
pub open spec fn stop_level(i: int) -> Double {
    if i <= 0 {
        Double { bits: 0 }
    } else if i == 1 {
        Double { bits: 0x3fd3_3333_3333_3333 }
    } else if i == 2 {
        Double { bits: 0x3fe1_9999_9999_999a }
    } else if i == 3 {
        Double { bits: 0x3fe9_9999_9999_999a }
    } else {
        Double { bits: ONE }
    }
}

/// The colours of a heat ramp's stops: black through violet and orange to a pale yellow.
pub open spec fn stop_colour(i: int) -> (u8, u8, u8) {
    if i <= 0 {
        (0, 0, 0)
    } else if i == 1 {
        (40, 20, 110)
    } else if i == 2 {
        (150, 30, 110)
    } else if i == 3 {
        (240, 110, 40)
    } else {
        (255, 255, 210)
    }
}

/// The stretch of the ramp a level falls in.
pub open spec fn stretch_of(u: Double) -> int {
    if !stop_level(1).less(u) {
        0
    } else if !stop_level(2).less(u) {
        1
    } else if !stop_level(3).less(u) {
        2
    } else {
        3
    }
}

fn stop(i: usize) -> (r: (Double, (u8, u8, u8)))
    requires
        i <= 4,
    ensures
        r == (stop_level(i as int), stop_colour(i as int)),
{
    if i == 0 {
        (Double { bits: 0 }, (0, 0, 0))
    } else if i == 1 {
        (Double { bits: 0x3fd3_3333_3333_3333 }, (40, 20, 110))
    } else if i == 2 {
        (Double { bits: 0x3fe1_9999_9999_999a }, (150, 30, 110))
    } else if i == 3 {
        (Double { bits: 0x3fe9_9999_9999_999a }, (240, 110, 40))
    } else {
        (Double { bits: ONE }, (255, 255, 210))
    }
}

/// A level's colour: between the two stops it falls between, each component by itself.
pub open spec fn is_heat<M: MapMath>(m: &M, u: Double, c: Seq<u8>) -> bool {
    let u = m.held_of(u);
    let i = stretch_of(u);
    let (from, to) = (stop_level(i), stop_level(i + 1));
    let (a, b) = (stop_colour(i), stop_colour(i + 1));
    &&& c[0] == m.between_of(u, Stretch { from, to, low: a.0, high: b.0 })
    &&& c[1] == m.between_of(u, Stretch { from, to, low: a.1, high: b.1 })
    &&& c[2] == m.between_of(u, Stretch { from, to, low: a.2, high: b.2 })
}

/// The heat ramp a map is read through: a level, held between zero and one, to red, green and blue.
///
/// Anchored at true black, so silence reads as empty.
pub fn heat<M: MapMath>(m: &M, u: Double) -> (r: [u8; 3])
    requires
        m.repeatable(),
    ensures
        is_heat(m, u, r@),
{
    let u = m.held(u);
    let mut i: usize = 0;
    while i < 3 && stop(i + 1).0.lt(u)
        invariant
            i <= 3,
            i >= 1 ==> stop_level(1).less(u),
            i >= 2 ==> stop_level(2).less(u),
            i >= 3 ==> stop_level(3).less(u),
        decreases 3 - i,
    {
        i += 1;
    }
    let (from, a) = stop(i);
    let (to, b) = stop(i + 1);
    [
        m.between(u, Stretch { from, to, low: a.0, high: b.0 }),
        m.between(u, Stretch { from, to, low: a.1, high: b.1 }),
        m.between(u, Stretch { from, to, low: a.2, high: b.2 }),
    ]
}

/// Sample `k` of an atom falls `columns` bins later when the atom starts at `t1` than at `t0`.
pub open spec fn moved<M: MapMath>(
    m: &M,
    g: MapGrid,
    t0: i64,
    t1: i64,
    columns: int,
    k: int,
) -> bool {
    let a = g.bin_of(m, m.instant_of(t0, k as usize));
    let b = g.bin_of(m, m.instant_of(t1, k as usize));
    a is Some && b is Some && b->0 == a->0 + columns
}

/// Moving an atom by whole bins moves its time marginal by as many columns, bit for bit.
pub proof fn law_a_shift_moves_the_map<M: MapMath>(
    m: &M,
    g: MapGrid,
    t0: i64,
    t1: i64,
    columns: int,
    env: Seq<Single>,
    i: int,
    n: int,
)
    requires
        0 <= n <= env.len(),
        forall|k: int| 0 <= k < env.len() ==> #[trigger] moved(m, g, t0, t1, columns, k),
    ensures
        power_in(m, g, t1, env, i + columns, n) == power_in(m, g, t0, env, i, n),
    decreases n,
{
    if n > 0 {
        law_a_shift_moves_the_map(m, g, t0, t1, columns, env, i, n - 1);
        assert(moved(m, g, t0, t1, columns, n - 1));
    }
}

/// A map holds every atom once: each is drawn, or counted as skipped.
pub proof fn law_every_atom_is_drawn_or_skipped<M: MapMath>(
    m: &M,
    r: TfMap,
    g: MapGrid,
    sels: Seq<Selection>,
    sample_rate: Single,
    opts: MapOptions,
    ks: Seq<Result<Option<AtomKernel>, FofError>>,
)
    requires
        kernels_are(m, sels, sample_rate, g, opts, ks),
        is_map(m, r, g, ks),
    ensures
        r.atoms + r.skipped == sels.len(),
{
}

} // verus!
