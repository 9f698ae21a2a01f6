//! What a chart shows, before anything is drawn.
//!
//! Drawing is the caller's. What is decided here is which pixel has which colour, where each mark
//! goes, and what each axis covers and is labelled with.

use crate::book::Book;
use crate::display::{num, peak_of, short};
use crate::ieee::{Double, Single};
use crate::mapmath::MapMath;
use crate::notation::Notation;
use crate::stats::Histogram;
use crate::tfmap::{at, heat, is_heat, Reference, TfMap};
use vstd::prelude::*;

verus! {

/// The bits of minus one, which is no bin's index.
pub const NOWHERE: u64 = 0xbff0_0000_0000_0000;

/// The bits of one.
pub const ONE: u64 = 0x3ff0_0000_0000_0000;

/// The bits of the largest finite number.
pub const LARGEST: u64 = 0x7fef_ffff_ffff_ffff;

/// The bits of the smallest normal number.
pub const TINY: u64 = 0x0010_0000_0000_0000;

/// The bits of one and a twentieth: the room left above a curve.
pub const HEADROOM: u64 = 0x3ff0_cccc_cccc_cccd;

/// The bits of 1.08: the room left above a bar.
pub const BAR_HEADROOM: u64 = 0x3ff1_47ae_147a_e148;

// ---------------------------------------------------------------------------------------------
// the map
// ---------------------------------------------------------------------------------------------

/// A level's place on the colour ramp: the floor at zero and the reference at one.
pub open spec fn ramp<N: Notation>(n: &N, db: Single, floor_db: Single) -> Double {
    n.over_of(n.plus_of(n.widen_of(db), n.widen_of(floor_db)), n.widen_of(floor_db))
}

/// Where the pixel of a cell starts: rows run across, the highest frequency on top, which is how a
/// spectrogram is read.
pub open spec fn pixel(i: int, j: int, n_t: int, n_f: int) -> int {
    ((n_f - 1 - j) * n_t + i) * 3
}

/// The three bytes of a cell's pixel are its colour.
pub open spec fn painted<N: Notation, M: MapMath>(
    n: &N,
    m: &M,
    rgb: Seq<u8>,
    db: Seq<Single>,
    floor_db: Single,
    n_t: int,
    n_f: int,
    i: int,
    j: int,
) -> bool {
    let o = pixel(i, j, n_t, n_f);
    is_heat(
        m,
        ramp(n, db[at(i, j, n_f)], floor_db),
        seq![rgb[o], rgb[o + 1], rgb[o + 2]],
    )
}

/// A cell's place among all of them, and its pixel's among all the bytes.
proof fn lemma_places(i: int, j: int, n_t: int, n_f: int)
    requires
        0 <= i < n_t,
        0 <= j < n_f,
    ensures
        0 <= at(i, j, n_f) < n_t * n_f,
        0 <= pixel(i, j, n_t, n_f),
        pixel(i, j, n_t, n_f) + 3 <= n_t * n_f * 3,
        0 <= (n_f - 1 - j) * n_t + i < n_t * n_f,
{
    assert(0 <= i * n_f + j < n_t * n_f) by (nonlinear_arith)
        requires
            0 <= i < n_t,
            0 <= j < n_f,
    ;
    let y = n_f - 1 - j;
    assert(0 <= y * n_t + i < n_t * n_f) by (nonlinear_arith)
        requires
            0 <= i < n_t,
            0 <= y < n_f,
    ;
}

/// Every cell has a pixel of its own.
pub proof fn law_pixels_are_distinct(
    i: int,
    j: int,
    k: int,
    l: int,
    n_t: int,
    n_f: int,
)
    requires
        0 <= i < n_t,
        0 <= k < n_t,
        0 <= j < n_f,
        0 <= l < n_f,
        pixel(i, j, n_t, n_f) < pixel(k, l, n_t, n_f) + 3,
        pixel(k, l, n_t, n_f) < pixel(i, j, n_t, n_f) + 3,
    ensures
        i == k,
        j == l,
{
    let (y, z) = (n_f - 1 - j, n_f - 1 - l);
    assert(y * n_t + i == z * n_t + k);
    assert(y == z) by (nonlinear_arith)
        requires
            y * n_t + i == z * n_t + k,
            0 <= i < n_t,
            0 <= k < n_t,
    ;
}

/// The map's picture, row-major, three bytes to a pixel, the top row the highest frequency.
pub fn pixels<N: Notation, M: MapMath>(
    n: &N,
    m: &M,
    db: &Vec<Single>,
    floor_db: Single,
    n_t: usize,
    n_f: usize,
) -> (rgb: Vec<u8>)
    requires
        n.repeatable(),
        m.repeatable(),
        db@.len() == n_t * n_f,
        n_t * n_f * 3 <= usize::MAX,
    ensures
        rgb@.len() == n_t * n_f * 3,
        forall|i: int, j: int|
            0 <= i < n_t && 0 <= j < n_f ==> #[trigger] painted(
                n,
                m,
                rgb@,
                db@,
                floor_db,
                n_t as int,
                n_f as int,
                i,
                j,
            ),
{
    let ghost (wide, high) = (n_t as int, n_f as int);
    let mut rgb: Vec<u8> = Vec::new();
    let mut y: usize = 0;
    assert(0 * n_t * 3 == 0) by (nonlinear_arith);
    while y < n_f
        invariant
            n.repeatable(),
            m.repeatable(),
            wide == n_t,
            high == n_f,
            y <= n_f,
            db@.len() == n_t * n_f,
            n_t * n_f * 3 <= usize::MAX,
            rgb@.len() == y * n_t * 3,
            forall|i: int, j: int|
                0 <= i < n_t && n_f - y <= j < n_f ==> #[trigger] painted(
                    n,
                    m,
                    rgb@,
                    db@,
                    floor_db,
                    wide,
                    high,
                    i,
                    j,
                ),
        decreases n_f - y,
    {
        let j: usize = n_f - 1 - y;
        let mut i: usize = 0;
        while i < n_t
            invariant
                n.repeatable(),
                m.repeatable(),
                wide == n_t,
                high == n_f,
                i <= n_t,
                y < n_f,
                j == n_f - 1 - y,
                db@.len() == n_t * n_f,
                rgb@.len() == (y * n_t + i) * 3,
                forall|a: int, b: int|
                    0 <= a < n_t && 0 <= b < n_f && (b > j || (b == j && a < i)) ==> #[trigger] painted(
                        n,
                        m,
                        rgb@,
                        db@,
                        floor_db,
                        wide,
                        high,
                        a,
                        b,
                    ),
            decreases n_t - i,
        {
            proof {
                lemma_places(i as int, j as int, wide, high);
                assert(db.len() == db@.len());
                assert(0 <= i * n_f) by (nonlinear_arith);
            }
            let cell: usize = i * n_f + j;
            assert(cell == at(i as int, j as int, high));
            let u = n.over(n.plus(n.widen(db[cell]), n.widen(floor_db)), n.widen(floor_db));
            let c = heat(m, u);
            let ghost before = rgb@;
            rgb.push(c[0]);
            rgb.push(c[1]);
            rgb.push(c[2]);
            proof {
                let o = pixel(i as int, j as int, wide, high);
                assert(o == before.len());
                assert(seq![rgb@[o], rgb@[o + 1], rgb@[o + 2]] =~= c@);
                assert(painted(n, m, rgb@, db@, floor_db, wide, high, i as int, j as int));
                assert forall|a: int, b: int|
                    0 <= a < n_t && 0 <= b < n_f && (b > j || (b == j && a < i + 1)) implies #[trigger] painted(
                    n,
                    m,
                    rgb@,
                    db@,
                    floor_db,
                    wide,
                    high,
                    a,
                    b,
                ) by {
                    if !(b == j && a == i) {
                        assert(painted(n, m, before, db@, floor_db, wide, high, a, b));
                        lemma_earlier(a, b, i as int, j as int, wide, high);
                        let p = pixel(a, b, wide, high);
                        assert(before[p] == rgb@[p]);
                        assert(before[p + 1] == rgb@[p + 1]);
                        assert(before[p + 2] == rgb@[p + 2]);
                    }
                }
                assert((y * n_t + i) * 3 + 3 == (y * n_t + (i + 1)) * 3);
            }
            i += 1;
        }
        proof {
            assert((y * n_t + n_t) * 3 == (y + 1) * n_t * 3) by (nonlinear_arith);
        }
        y += 1;
    }
    proof {
        assert(n_f * n_t * 3 == n_t * n_f * 3) by (nonlinear_arith);
    }
    rgb
}

/// What is drawn earlier lies before.
proof fn lemma_earlier(a: int, b: int, i: int, j: int, n_t: int, n_f: int)
    requires
        0 <= a < n_t,
        0 <= i < n_t,
        0 <= b < n_f,
        0 <= j < n_f,
        b > j || (b == j && a < i),
    ensures
        0 <= pixel(a, b, n_t, n_f),
        pixel(a, b, n_t, n_f) + 3 <= pixel(i, j, n_t, n_f),
{
    let (y, z) = (n_f - 1 - b, n_f - 1 - j);
    assert(0 <= y * n_t + a && y * n_t + a + 1 <= z * n_t + i) by (nonlinear_arith)
        requires
            0 <= a < n_t,
            0 <= i < n_t,
            0 <= y <= z,
            y < z || a < i,
    ;
}

/// The first edge not below a frequency, in the total order; one past the last when there is none.
pub open spec fn first_edge(edges: Seq<Single>, hz: Single, from: int) -> int
    decreases edges.len() - from,
{
    if from >= edges.len() || hz.total() <= edges[from].total() {
        from
    } else {
        first_edge(edges, hz, from + 1)
    }
}

/// Bin index of a frequency, for placing a mark on the same axis as the pixels; minus one off it.
pub open spec fn place<N: Notation>(n: &N, edges: Seq<Single>, hz: Single) -> Double {
    let i = first_edge(edges, hz, 0);
    if i < edges.len() && edges[i].total() == hz.total() {
        n.count_of(i as usize)
    } else if i == 0 || i >= edges.len() {
        Double { bits: NOWHERE }
    } else {
        let (a, b) = (edges[i - 1], edges[i]);
        n.plus_of(
            n.count_of((i - 1) as usize),
            n.widen_of(n.over_single_of(n.minus_single_of(hz, a), n.minus_single_of(b, a))),
        )
    }
}

/// Bin index of a frequency, for placing a mark on the same axis as the pixels; minus one off it.
pub fn f_index<N: Notation>(n: &N, edges: &Vec<Single>, hz: Single) -> (r: Double)
    requires
        n.repeatable(),
    ensures
        r == place(n, edges@, hz),
{
    let mut i: usize = 0;
    while i < edges.len() && edges[i].total_less(hz)
        invariant
            i <= edges@.len(),
            first_edge(edges@, hz, 0) == first_edge(edges@, hz, i as int),
        decreases edges@.len() - i,
    {
        i += 1;
    }
    if i < edges.len() && !hz.total_less(edges[i]) {
        n.count(i)
    } else if i == 0 || i >= edges.len() {
        Double { bits: NOWHERE }
    } else {
        let a = edges[i - 1];
        let b = edges[i];
        n.plus(
            n.count(i - 1),
            n.widen(n.over_single(n.minus_single(hz, a), n.minus_single(b, a))),
        )
    }
}

/// A mark: a time in seconds, and a bin index.
pub type Mark = (Double, Double);

/// The marks of the first `k` atoms that fall on the picture.
pub open spec fn marks_through<N: Notation>(n: &N, book: Book, map: TfMap, k: int) -> Seq<Mark>
    decreases k,
{
    if k <= 0 {
        seq![]
    } else {
        let before = marks_through(n, book, map, k - 1);
        let mark = mark_of(n, book, map, k - 1);
        if shows(n, map, mark) {
            before.push(mark)
        } else {
            before
        }
    }
}

/// One atom's mark.
pub open spec fn mark_of<N: Notation>(n: &N, book: Book, map: TfMap, i: int) -> Mark {
    let a = book.selections@[i].atom;
    (
        n.over_of(n.position_of(a.t0 as i128), n.widen_of(book.sample_rate)),
        place(n, map.grid.f_edges@, a.f),
    )
}

/// The ends of the time axis, in seconds.
pub open spec fn time_ends<N: Notation>(n: &N, map: TfMap) -> (Double, Double) {
    let rate = n.widen_of(map.grid.sample_rate);
    (
        n.over_of(map.grid.t_edges@[0], rate),
        n.over_of(map.grid.t_edges@[map.grid.columns()], rate),
    )
}

/// A mark falls on the picture.
pub open spec fn shows<N: Notation>(n: &N, map: TfMap, mark: Mark) -> bool {
    let (t0, t1) = time_ends(n, map);
    t0.at_most(mark.0) && mark.0.at_most(t1) && (Double { bits: 0 }).at_most(mark.1)
}

/// Everything the map's chart shows.
#[derive(Debug)]
pub struct MapChart {
    /// The ends of the time axis, in seconds.
    pub time: (Double, Double),
    /// The picture, row-major, three bytes to a pixel.
    pub rgb: Vec<u8>,
    /// The atoms to mark.
    pub marks: Vec<Mark>,
}

/// The pseudo-Wigner map as a heat map.
///
/// The frequency axis is drawn linearly in bin index and labelled with the grid's own edges. That is
/// what makes a geometric grid work without resampling: the pixels were laid out on the grid's edges,
/// so labelling from the same edges keeps picture and axis on one scale. With `overlay` every atom
/// that falls on the picture is marked: if the heat is not under the marks, something is wrong.
pub fn wv_chart<N: Notation, M: MapMath>(
    n: &N,
    m: &M,
    book: &Book,
    map: &TfMap,
    floor_db: Single,
    reference: Reference,
    overlay: bool,
) -> (r: MapChart)
    requires
        n.repeatable(),
        m.repeatable(),
        map.wf(),
        map.cells@.len() * 3 <= usize::MAX,
    ensures
        r.time == time_ends(n, *map),
        r.rgb@.len() == map.cells@.len() * 3,
        exists|db: Seq<Single>|
            #![trigger map.levels(m, floor_db, reference, db)]
            map.levels(m, floor_db, reference, db) && forall|i: int, j: int|
                0 <= i < map.grid.columns() && 0 <= j < map.grid.rows() ==> #[trigger] painted(
                    n,
                    m,
                    r.rgb@,
                    db,
                    floor_db,
                    map.grid.columns(),
                    map.grid.rows(),
                    i,
                    j,
                ),
        r.marks@ == if overlay {
            marks_through(n, *book, *map, book.selections@.len() as int)
        } else {
            seq![]
        },
{
    let n_t: usize = map.grid.n_t();
    let n_f: usize = map.grid.n_f();
    let db = map.to_db(m, floor_db, reference);
    let rate = n.widen(map.grid.sample_rate);
    let t0 = n.over(map.grid.t_edges[0], rate);
    let t1 = n.over(map.grid.t_edges[n_t], rate);
    let rgb = pixels(n, m, &db, floor_db, n_t, n_f);
    let mut marks: Vec<Mark> = Vec::new();
    if overlay {
        let mut k: usize = 0;
        while k < book.selections.len()
            invariant
                n.repeatable(),
                map.wf(),
                (t0, t1) == time_ends(n, *map),
                k <= book.selections@.len(),
                marks@ == marks_through(n, *book, *map, k as int),
            decreases book.selections@.len() - k,
        {
            let a = book.selections[k].atom;
            let t = n.over(n.position(a.t0 as i128), n.widen(book.sample_rate));
            let y = f_index(n, &map.grid.f_edges, a.f);
            if t0.le(t) && t.le(t1) && (Double { bits: 0 }).le(y) {
                marks.push((t, y));
            }
            k += 1;
        }
    }
    proof {
        assert(map.levels(m, floor_db, reference, db@));
    }
    MapChart { time: (t0, t1), rgb, marks }
}

// ---------------------------------------------------------------------------------------------
// the convergence
// ---------------------------------------------------------------------------------------------

/// The points of a trace's first `k` entries that are finite: the atoms so far, and the level.
pub open spec fn points_through<N: Notation>(n: &N, trace: Seq<Single>, k: int) -> Seq<Mark>
    decreases k,
{
    if k <= 0 {
        seq![]
    } else {
        let before = points_through(n, trace, k - 1);
        if trace[k - 1].finite() {
            before.push(
                (
                    n.plus_of(n.count_of((k - 1) as usize), Double { bits: ONE }),
                    n.widen_of(trace[k - 1]),
                ),
            )
        } else {
            before
        }
    }
}

/// The highest of the first `k` points.
pub open spec fn highest(points: Seq<Mark>, k: int) -> Double
    decreases k,
{
    if k <= 0 {
        Double { bits: 0xffef_ffff_ffff_ffff }
    } else {
        highest(points, k - 1).larger(points[k - 1].1)
    }
}

/// The lowest of the first `k` points.
pub open spec fn lowest(points: Seq<Mark>, k: int) -> Double
    decreases k,
{
    if k <= 0 {
        Double { bits: LARGEST }
    } else {
        lowest(points, k - 1).smaller(points[k - 1].1)
    }
}

/// The levels a convergence is marked at, dB.
pub open spec fn levels_marked() -> Seq<Double> {
    seq![
        Double { bits: 0x4024_0000_0000_0000 },
        Double { bits: 0x4034_0000_0000_0000 },
        Double { bits: 0x403e_0000_0000_0000 },
        Double { bits: 0x4044_0000_0000_0000 },
    ]
}

/// The levels among the first `k` that fall on the axis.
pub open spec fn rules_through(lo: Double, hi: Double, k: int) -> Seq<Double>
    decreases k,
{
    if k <= 0 {
        seq![]
    } else {
        let before = rules_through(lo, hi, k - 1);
        let level = levels_marked()[k - 1];
        if lo.less(level) && level.at_most(hi) {
            before.push(level)
        } else {
            before
        }
    }
}

/// Everything the convergence chart shows.
#[derive(Debug)]
pub struct TraceChart {
    /// The end of the axis of atoms.
    pub atoms: Double,
    /// The ends of the axis of levels.
    pub range: (Double, Double),
    /// The curve.
    pub points: Vec<Mark>,
    /// The levels to rule, so that where a target was reached can be read off the picture.
    pub rules: Vec<Double>,
}

/// The convergence curve: level against atoms.
pub fn snr_chart<N: Notation>(n: &N, trace: &Vec<Single>) -> (r: Result<TraceChart, String>)
    requires
        n.repeatable(),
    ensures
        ({
            let points = points_through(n, trace@, trace@.len() as int);
            let k = points.len() as int;
            let hi = highest(points, k).larger(Double { bits: ONE });
            let lo = lowest(points, k).smaller(Double { bits: 0 });
            match r {
                Ok(c) => {
                    &&& k > 0
                    &&& c.points@ == points
                    &&& c.atoms == n.count_of(trace@.len() as usize)
                    &&& c.range == (lo, n.times_of(hi, Double { bits: HEADROOM }))
                    &&& c.rules@ == rules_through(lo, hi, 4)
                },
                Err(why) => {
                    &&& k == 0
                    &&& why@ == if trace@.len() == 0 {
                        "the book has no atoms to plot"@
                    } else {
                        "the convergence trace has no finite values"@
                    }
                },
            }
        }),
{
    if trace.len() == 0 {
        return Err("the book has no atoms to plot".to_owned());
    }
    let mut points: Vec<Mark> = Vec::new();
    let mut i: usize = 0;
    while i < trace.len()
        invariant
            n.repeatable(),
            i <= trace@.len(),
            points@ == points_through(n, trace@, i as int),
        decreases trace@.len() - i,
    {
        if trace[i].is_finite() {
            points.push((n.plus(n.count(i), Double { bits: ONE }), n.widen(trace[i])));
        }
        i += 1;
    }
    if points.len() == 0 {
        return Err("the convergence trace has no finite values".to_owned());
    }
    let mut hi = Double { bits: 0xffef_ffff_ffff_ffff };
    let mut lo = Double { bits: LARGEST };
    let mut k: usize = 0;
    while k < points.len()
        invariant
            k <= points@.len(),
            hi == highest(points@, k as int),
            lo == lowest(points@, k as int),
        decreases points@.len() - k,
    {
        hi = hi.max(points[k].1);
        lo = lo.min(points[k].1);
        k += 1;
    }
    let hi = hi.max(Double { bits: ONE });
    let lo = lo.min(Double { bits: 0 });
    let levels: [Double; 4] = [
        Double { bits: 0x4024_0000_0000_0000 },
        Double { bits: 0x4034_0000_0000_0000 },
        Double { bits: 0x403e_0000_0000_0000 },
        Double { bits: 0x4044_0000_0000_0000 },
    ];
    assert(levels@ =~= levels_marked());
    let mut rules: Vec<Double> = Vec::new();
    let mut l: usize = 0;
    while l < 4
        invariant
            l <= 4,
            levels@ == levels_marked(),
            rules@ == rules_through(lo, hi, l as int),
        decreases 4 - l,
    {
        let level = levels[l];
        if lo.lt(level) && level.le(hi) {
            rules.push(level);
        }
        l += 1;
    }
    Ok(
        TraceChart {
            atoms: n.count(trace.len()),
            range: (lo, n.times(hi, Double { bits: HEADROOM })),
            points,
            rules,
        },
    )
}

// ---------------------------------------------------------------------------------------------
// a histogram
// ---------------------------------------------------------------------------------------------

/// Everything a histogram's chart shows besides its bars.
///
/// Bars are drawn against bin index, with the edge values as tick labels. A log histogram is already
/// geometric in its edges, so bending the axis as well would double the transform for no gain.
#[derive(Debug)]
pub struct BarChart {
    pub title: String,
    /// The end of the axis of weights.
    pub top: Double,
    /// How many ticks the axis of bins gets.
    pub ticks: usize,
    /// A label for each edge.
    pub labels: Vec<String>,
}

/// The ticks an axis of `bins` gets: at most eight, at least two.
pub open spec fn ticks_for(bins: int) -> int {
    if bins > 8 {
        8
    } else if bins < 2 {
        2
    } else {
        bins
    }
}

/// A histogram as a bar chart.
pub fn histogram_chart<N: Notation>(n: &N, h: &Histogram) -> (r: BarChart)
    requires
        n.repeatable(),
    ensures
        r.title@ == h.quantity.heading() + (if h.log {
            "  (log bins)"@
        } else {
            ""@
        }) + "   n="@ + crate::text::written(h.stats.n as int),
        r.top == n.times_of(
            peak_of(h.counts@, h.counts@.len() as int).larger(Double { bits: TINY }),
            Double { bits: BAR_HEADROOM },
        ),
        r.ticks == ticks_for(h.counts@.len() as int),
        r.labels@.len() == h.edges@.len(),
        forall|i: int| 0 <= i < r.labels@.len() ==> (#[trigger] r.labels@[i])@ == short(n, h.edges@[i]),
{
    let mut title = h.quantity.label().to_owned();
    title.append(
        if h.log {
            "  (log bins)"
        } else {
            ""
        },
    );
    title.append("   n=");
    crate::text::push_number(&mut title, h.stats.n as u64);
    let mut labels: Vec<String> = Vec::new();
    let mut i: usize = 0;
    while i < h.edges.len()
        invariant
            n.repeatable(),
            i <= h.edges@.len(),
            labels@.len() == i,
            forall|j: int| 0 <= j < i ==> (#[trigger] labels@[j])@ == short(n, h.edges@[j]),
        decreases h.edges@.len() - i,
    {
        labels.push(num(n, h.edges[i]));
        i += 1;
    }
    let bins: usize = h.counts.len();
    let ticks: usize = if bins > 8 {
        8
    } else if bins < 2 {
        2
    } else {
        bins
    };
    let top = n.times(h.peak().max(Double { bits: TINY }), Double { bits: BAR_HEADROOM });
    BarChart { title, top, ticks, labels }
}

/// The edge a tick is labelled with: the nearest, and never one past the last.
pub fn tick_edge<N: Notation>(n: &N, v: Double, edges: usize) -> (r: usize)
    requires
        n.repeatable(),
        edges > 0,
    ensures
        r == ({
            let i = n.nearest_of(v.larger(Double { bits: 0 }));
            if i < edges {
                i
            } else {
                (edges - 1) as usize
            }
        }),
{
    let i: usize = n.nearest(v.max(Double { bits: 0 }));
    if i < edges {
        i
    } else {
        edges - 1
    }
}

} // verus!
