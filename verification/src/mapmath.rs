//! The floating-point arithmetic a time-frequency map asks for.
//!
//! The map decides which cell each part of an atom falls in; the formulas are here, over elementary
//! arithmetic.

use crate::atom::{Envelope, EnvelopeView, Shape};
use crate::dict::{fast_len, fast_len_of, FofError};
use crate::ieee::{Double, Single};
use crate::pursuit::Selection;
use crate::reals::Reals;
use crate::rounding::{
    close, exponentiates, gives, gives_single, is_log, is_logarithm, is_whole_part, least,
    lemma_above, lemma_close_looser, lemma_close_mirrored, lemma_close_most, lemma_close_sign,
    lemma_close_through, lemma_close_to_itself, lemma_counts, lemma_double_below_one,
    lemma_in_order, lemma_in_order_single, lemma_larger, lemma_larger_single, lemma_least_normal,
    lemma_minus, lemma_mirrored_single, lemma_nothing_single, lemma_over, lemma_over_single,
    lemma_plus, lemma_plus_single, lemma_scaled_error, lemma_single_above_one,
    lemma_single_below_one, lemma_small_numbers, lemma_times, lemma_times_single,
    lemma_within_a_millionth, moderate, most, near, ordinary, rounds, size, steady, steps, takes_log10s,
    takes_logs_single, tame,
};
use vstd::arithmetic::power2::pow2;
use vstd::prelude::*;

verus! {

/// Two ends of a colour ramp's stretch, and the levels they stand at.
#[derive(Clone, Copy, Debug, PartialEq, Eq, Structural)]
pub struct Stretch {
    pub from: Double,
    pub to: Double,
    pub low: u8,
    pub high: u8,
}

/// An envelope as a value, where there is one.
pub open spec fn outlined(r: Result<Envelope, FofError>) -> Result<EnvelopeView, FofError> {
    match r {
        Ok(env) => Ok(env@),
        Err(e) => Err(e),
    }
}

/// A function renders a shape at a sample rate as `v`.
pub open spec fn draws<Render: Fn(Shape, Single) -> Result<Envelope, FofError>>(
    render: Render,
    shape: Shape,
    sample_rate: Single,
    v: Result<EnvelopeView, FofError>,
) -> bool {
    exists|r: Result<Envelope, FofError>|
        #[trigger] call_ensures(render, (shape, sample_rate), r) && outlined(r) == v
}

/// The arithmetic, one method to a formula.
pub trait MapMath {
    /// The arithmetic is defined everywhere and repeats itself.
    spec fn repeatable(&self) -> bool;

    spec fn render_of(&self, shape: Shape, sample_rate: Single) -> Result<EnvelopeView, FofError>;

    spec fn square_of(&self, e: Single) -> Double;

    spec fn instant_of(&self, t0: i64, n: usize) -> Double;

    spec fn column_of(&self, t: Double, lo: Double, hi: Double, n: usize) -> usize;

    spec fn plus_of(&self, a: Double, b: Double) -> Double;

    spec fn minus_of(&self, a: Double, b: Double) -> Double;

    spec fn times_of(&self, a: Double, b: Double) -> Double;

    spec fn over_of(&self, a: Double, b: Double) -> Double;

    spec fn atom_energy_of(&self, amp: Single, energy: Double) -> Double;

    spec fn table_of(&self, sel: Selection, sample_rate: Single, support: usize, n_fft: usize) -> Seq<Double>;

    spec fn bin_at_of(&self, hz: Single, n_fft: usize, sample_rate: Single) -> Double;

    spec fn whole_of(&self, n: usize) -> Double;

    spec fn below_of(&self, x: Double) -> usize;

    spec fn blend_of(&self, a: Double, b: Double, x: Double, i: usize) -> Double;

    spec fn display_len_of(&self, df: Single, sample_rate: Single) -> usize;

    spec fn fast_len_of(&self, n: usize) -> usize;

    spec fn uneven_of(&self, a: Single, b: Single, c: Single) -> bool;

    spec fn width_of(&self, a: Single, b: Single, n: usize) -> Single;

    spec fn t_edge_of(&self, start: Double, end: Double, i: usize, n: usize) -> Double;

    spec fn f_edge_of(&self, start: Single, end: Single, i: usize, n: usize) -> Single;

    spec fn f_edge_log_of(&self, start: Single, end: Single, i: usize, n: usize) -> Single;

    spec fn reach_of(&self, f: Single, shape: Shape) -> Single;

    spec fn top_of(&self, f_hi: Single, sample_rate: Single) -> Single;

    spec fn bottom_of(&self, f_lo: Single) -> Single;

    spec fn nyquist_of(&self, sample_rate: Single) -> Single;

    spec fn sample_of(&self, t: i64) -> Double;

    spec fn stretched_of(&self, lo: Single, hi: Single) -> Single;

    spec fn spread_of(&self, cell: Double, t_edge: Double, t_next: Double, f_edge: Single, f_next: Single, sample_rate: Single) -> Double;

    spec fn even_level_of(&self, energy: Double, t_span: (Double, Double), f_span: (Single, Single), sample_rate: Single, peak: Double) -> Double;

    spec fn decibels_of(&self, v: Double, reference: Double, floor_db: Single) -> Single;

    spec fn negated_of(&self, x: Single) -> Single;

    spec fn held_of(&self, u: Double) -> Double;

    spec fn between_of(&self, u: Double, s: Stretch) -> u8;

    /// Render a shape's envelope.
    fn render(&self, shape: Shape, sample_rate: Single) -> (r: Result<Envelope, FofError>)
        requires
            self.repeatable(),
        ensures
            outlined(r) == self.render_of(shape, sample_rate),
    ;

    /// `e * e`.
    fn square(&self, e: Single) -> (r: Double)
        requires
            self.repeatable(),
        ensures
            r == self.square_of(e),
    ;

    /// Sample `n` of an atom that starts at `t0`.
    fn instant(&self, t0: i64, n: usize) -> (r: Double)
        requires
            self.repeatable(),
        ensures
            r == self.instant_of(t0, n),
    ;

    /// Which of `n` even bins between `lo` and `hi` holds `t`.
    fn column(&self, t: Double, lo: Double, hi: Double, n: usize) -> (r: usize)
        requires
            self.repeatable(),
        ensures
            r == self.column_of(t, lo, hi, n),
    ;

    /// `a + b`.
    fn plus(&self, a: Double, b: Double) -> (r: Double)
        requires
            self.repeatable(),
        ensures
            r == self.plus_of(a, b),
    ;

    /// `a - b`.
    fn minus(&self, a: Double, b: Double) -> (r: Double)
        requires
            self.repeatable(),
        ensures
            r == self.minus_of(a, b),
    ;

    /// `a * b`.
    fn times(&self, a: Double, b: Double) -> (r: Double)
        requires
            self.repeatable(),
        ensures
            r == self.times_of(a, b),
    ;

    /// `a / b`.
    fn over(&self, a: Double, b: Double) -> (r: Double)
        requires
            self.repeatable(),
        ensures
            r == self.over_of(a, b),
    ;

    /// An atom's own energy: its amplitude squared times its envelope's.
    fn atom_energy(&self, amp: Single, energy: Double) -> (r: Double)
        requires
            self.repeatable(),
        ensures
            r == self.atom_energy_of(amp, energy),
    ;

    /// The running integral of a rendered atom's energy spectrum, from zero.
    fn table(&self, sel: Selection, sample_rate: Single, support: usize, n_fft: usize) -> (r: Vec<Double>)
        requires
            self.repeatable(),
        ensures
            r@ == self.table_of(sel, sample_rate, support, n_fft),
    ;

    /// The transform bin a frequency falls at, as a real number.
    fn bin_at(&self, hz: Single, n_fft: usize, sample_rate: Single) -> (r: Double)
        requires
            self.repeatable(),
        ensures
            r == self.bin_at_of(hz, n_fft, sample_rate),
    ;

    /// A whole number.
    fn whole(&self, n: usize) -> (r: Double)
        requires
            self.repeatable(),
        ensures
            r == self.whole_of(n),
    ;

    /// The whole part of a number, zero for what is under zero.
    fn below(&self, x: Double) -> (r: usize)
        requires
            self.repeatable(),
        ensures
            r == self.below_of(x),
    ;

    /// `a` and `b` in the proportion `x` stands between `i` and the next.
    fn blend(&self, a: Double, b: Double, x: Double, i: usize) -> (r: Double)
        requires
            self.repeatable(),
        ensures
            r == self.blend_of(a, b, x, i),
    ;

    /// The transform that resolves a bin of width `df`.
    fn display_len(&self, df: Single, sample_rate: Single) -> (r: usize)
        requires
            self.repeatable(),
        ensures
            r == self.display_len_of(df, sample_rate),
    ;

    /// A transform length that is at least `n`, and fast.
    fn fast_len(&self, n: usize) -> (r: usize)
        requires
            self.repeatable(),
        ensures
            r == self.fast_len_of(n),
    ;

    /// The stretches between three edges differ in width.
    fn uneven(&self, a: Single, b: Single, c: Single) -> (r: bool)
        requires
            self.repeatable(),
        ensures
            r == self.uneven_of(a, b, c),
    ;

    /// `(b - a) / n`.
    fn width(&self, a: Single, b: Single, n: usize) -> (r: Single)
        requires
            self.repeatable(),
        ensures
            r == self.width_of(a, b, n),
    ;

    /// Edge `i` of `n` even bins.
    fn t_edge(&self, start: Double, end: Double, i: usize, n: usize) -> (r: Double)
        requires
            self.repeatable(),
        ensures
            r == self.t_edge_of(start, end, i, n),
    ;

    /// Edge `i` of `n` even bins.
    fn f_edge(&self, start: Single, end: Single, i: usize, n: usize) -> (r: Single)
        requires
            self.repeatable(),
        ensures
            r == self.f_edge_of(start, end, i, n),
    ;

    /// Edge `i` of `n` geometric bins.
    fn f_edge_log(&self, start: Single, end: Single, i: usize, n: usize) -> (r: Single)
        requires
            self.repeatable(),
        ensures
            r == self.f_edge_log_of(start, end, i, n),
    ;

    /// A carrier and its shape's bandwidth.
    fn reach(&self, f: Single, shape: Shape) -> (r: Single)
        requires
            self.repeatable(),
        ensures
            r == self.reach_of(f, shape),
    ;

    /// The ceiling of an axis that shows up to `f_hi`.
    fn top(&self, f_hi: Single, sample_rate: Single) -> (r: Single)
        requires
            self.repeatable(),
        ensures
            r == self.top_of(f_hi, sample_rate),
    ;

    /// Where a geometric axis would rather begin: half of `f_lo`, but not under 20 Hz.
    fn bottom(&self, f_lo: Single) -> (r: Single)
        requires
            self.repeatable(),
        ensures
            r == self.bottom_of(f_lo),
    ;

    /// Half a sample rate.
    fn nyquist(&self, sample_rate: Single) -> (r: Single)
        requires
            self.repeatable(),
        ensures
            r == self.nyquist_of(sample_rate),
    ;

    /// A sample's number.
    fn sample(&self, t: i64) -> (r: Double)
        requires
            self.repeatable(),
        ensures
            r == self.sample_of(t),
    ;

    /// The end of a geometric axis that starts at `lo`: `hi`, or just above `lo`.
    fn stretched(&self, lo: Single, hi: Single) -> (r: Single)
        requires
            self.repeatable(),
        ensures
            r == self.stretched_of(lo, hi),
    ;

    /// A cell's energy per second per hertz.
    fn spread(&self, cell: Double, t_edge: Double, t_next: Double, f_edge: Single, f_next: Single, sample_rate: Single) -> (r: Double)
        requires
            self.repeatable(),
        ensures
            r == self.spread_of(cell, t_edge, t_next, f_edge, f_next, sample_rate),
    ;

    /// The level of an energy spread evenly over a map.
    fn even_level(&self, energy: Double, t_span: (Double, Double), f_span: (Single, Single), sample_rate: Single, peak: Double) -> (r: Double)
        requires
            self.repeatable(),
        ensures
            r == self.even_level_of(energy, t_span, f_span, sample_rate, peak),
    ;

    /// A level in dB against a reference, no lower than the floor.
    fn decibels(&self, v: Double, reference: Double, floor_db: Single) -> (r: Single)
        requires
            self.repeatable(),
        ensures
            r == self.decibels_of(v, reference, floor_db),
    ;

    /// `-x`.
    fn negated(&self, x: Single) -> (r: Single)
        requires
            self.repeatable(),
        ensures
            r == self.negated_of(x),
    ;

    /// A level held between zero and one.
    fn held(&self, u: Double) -> (r: Double)
        requires
            self.repeatable(),
        ensures
            r == self.held_of(u),
    ;

    /// A level's place along a stretch of a colour ramp.
    fn between(&self, u: Double, s: Stretch) -> (r: u8)
        requires
            self.repeatable(),
        ensures
            r == self.between_of(u, s),
    ;

}

/// The running trapezoid of some samples up to number `n`.
pub open spec fn area<R: Reals>(r: &R, p: Seq<Double>, n: int) -> Double
    decreases n,
{
    if n <= 0 {
        (Double { bits: 0 })
    } else {
        r.plus_of(area(r, p, n - 1), r.times_of((Double { bits: 0x3fe0_0000_0000_0000 }), r.plus_of(p[n - 1], p[n])))
    }
}

/// The running trapezoid of some samples, from zero.
pub open spec fn running<R: Reals>(r: &R, p: Seq<Double>) -> Seq<Double> {
    Seq::new(if p.len() == 0 { 1 } else { p.len() }, |n: int| area(r, p, n))
}

/// The running trapezoid of some samples, from zero.
fn integral<R: Reals>(r: &R, p: &Vec<Double>) -> (answer: Vec<Double>)
    requires
        r.repeatable(),
    ensures
        answer@ == running(r, p@),
{
    let mut out: Vec<Double> = vec![(Double { bits: 0 })];
    let mut sum = (Double { bits: 0 });
    let mut n: usize = 1;
    while n < p.len()
        invariant
            r.repeatable(),
            1 <= n,
            p.len() > 0 ==> n <= p.len(),
            p.len() == 0 ==> n == 1,
            out@.len() == n,
            sum == area(r, p@, n - 1),
            forall|i: int| 0 <= i < n ==> #[trigger] out@[i] == area(r, p@, i),
        decreases p.len() - n,
    {
        sum = r.plus(sum, r.times((Double { bits: 0x3fe0_0000_0000_0000 }), r.plus(p[n - 1], p[n])));
        out.push(sum);
        n += 1;
    }
    out
}

/// A function gives an atom the power spectrum `p`.
pub open spec fn spectrum<P: Fn(Selection, Single, usize, usize) -> Vec<Double>>(
    power: P,
    sel: Selection,
    sample_rate: Single,
    support: usize,
    n_fft: usize,
    p: Seq<Double>,
) -> bool {
    exists|v: Vec<Double>| v@ == p && #[trigger] call_ensures(power, (sel, sample_rate, support, n_fft), v)
}

/// [`MapMath`] over elementary arithmetic.
pub struct MapFigures<R, Render, Power> {
    pub reals: R,
    /// Render a shape's envelope.
    pub render: Render,
    /// The power spectrum of an atom rendered at a sample rate, over a transform of a given length.
    pub power: Power,
}

impl<R, Render, Power> MapMath for MapFigures<R, Render, Power> where
    R: Reals,
    Render: Fn(Shape, Single) -> Result<Envelope, FofError>,
    Power: Fn(Selection, Single, usize, usize) -> Vec<Double>,
 {
    open spec fn repeatable(&self) -> bool {
        &&& self.reals.repeatable()
        &&& forall|shape: Shape, sample_rate: Single| #[trigger]
            call_requires(self.render, (shape, sample_rate))
        &&& forall|
            shape: Shape,
            sample_rate: Single,
            first: Result<Envelope, FofError>,
            second: Result<Envelope, FofError>,
        | #[trigger]
            call_ensures(self.render, (shape, sample_rate), first) && #[trigger] call_ensures(
                self.render,
                (shape, sample_rate),
                second,
            ) ==> outlined(first) == outlined(second)
        &&& forall|sel: Selection, sample_rate: Single, support: usize, n_fft: usize| #[trigger]
            call_requires(self.power, (sel, sample_rate, support, n_fft))
        &&& forall|sel: Selection, sample_rate: Single, support: usize, n_fft: usize, a: Vec<Double>, b: Vec<Double>| #[trigger]
            call_ensures(self.power, (sel, sample_rate, support, n_fft), a) && #[trigger] call_ensures(
                self.power,
                (sel, sample_rate, support, n_fft),
                b,
            ) ==> a@ == b@
    }

    open spec fn render_of(&self, shape: Shape, sample_rate: Single) -> Result<EnvelopeView, FofError> {
        choose|v: Result<EnvelopeView, FofError>| draws(self.render, shape, sample_rate, v)
    }

    fn render(&self, shape: Shape, sample_rate: Single) -> (answer: Result<Envelope, FofError>) {
        let answer = (self.render)(shape, sample_rate);
        assert(draws(self.render, shape, sample_rate, outlined(answer)));
        answer
    }

    open spec fn square_of(&self, e: Single) -> Double {
        let r = &self.reals;
        r.times_of(r.widen_of(e), r.widen_of(e))
    }

    fn square(&self, e: Single) -> (answer: Double) {
        let r = &self.reals;
        r.times(r.widen(e), r.widen(e))
    }

    open spec fn instant_of(&self, t0: i64, n: usize) -> Double {
        let r = &self.reals;
        r.plus_of(r.long_of(t0 as i128), r.count_of(n))
    }

    fn instant(&self, t0: i64, n: usize) -> (answer: Double) {
        let r = &self.reals;
        r.plus(r.long(t0 as i128), r.count(n))
    }

    open spec fn column_of(&self, t: Double, lo: Double, hi: Double, n: usize) -> usize {
        let r = &self.reals;
        r.whole_of(r.over_of(r.minus_of(t, lo), r.over_of(r.minus_of(hi, lo), r.count_of(n))))
    }

    fn column(&self, t: Double, lo: Double, hi: Double, n: usize) -> (answer: usize) {
        let r = &self.reals;
        r.whole(r.over(r.minus(t, lo), r.over(r.minus(hi, lo), r.count(n))))
    }

    open spec fn plus_of(&self, a: Double, b: Double) -> Double {
        let r = &self.reals;
        r.plus_of(a, b)
    }

    fn plus(&self, a: Double, b: Double) -> (answer: Double) {
        let r = &self.reals;
        r.plus(a, b)
    }

    open spec fn minus_of(&self, a: Double, b: Double) -> Double {
        let r = &self.reals;
        r.minus_of(a, b)
    }

    fn minus(&self, a: Double, b: Double) -> (answer: Double) {
        let r = &self.reals;
        r.minus(a, b)
    }

    open spec fn times_of(&self, a: Double, b: Double) -> Double {
        let r = &self.reals;
        r.times_of(a, b)
    }

    fn times(&self, a: Double, b: Double) -> (answer: Double) {
        let r = &self.reals;
        r.times(a, b)
    }

    open spec fn over_of(&self, a: Double, b: Double) -> Double {
        let r = &self.reals;
        r.over_of(a, b)
    }

    fn over(&self, a: Double, b: Double) -> (answer: Double) {
        let r = &self.reals;
        r.over(a, b)
    }

    open spec fn atom_energy_of(&self, amp: Single, energy: Double) -> Double {
        let r = &self.reals;
        r.times_of(r.times_of(r.widen_of(amp), r.widen_of(amp)), energy)
    }

    fn atom_energy(&self, amp: Single, energy: Double) -> (answer: Double) {
        let r = &self.reals;
        r.times(r.times(r.widen(amp), r.widen(amp)), energy)
    }

    open spec fn table_of(&self, sel: Selection, sample_rate: Single, support: usize, n_fft: usize) -> Seq<Double> {
        let r = &self.reals;
        running(r, choose|p: Seq<Double>| spectrum(self.power, sel, sample_rate, support, n_fft, p))
    }

    fn table(&self, sel: Selection, sample_rate: Single, support: usize, n_fft: usize) -> (answer: Vec<Double>) {
        let r = &self.reals;
        let power = (self.power)(sel, sample_rate, support, n_fft);
        assert(spectrum(self.power, sel, sample_rate, support, n_fft, power@));
        integral(r, &power)
    }

    open spec fn bin_at_of(&self, hz: Single, n_fft: usize, sample_rate: Single) -> Double {
        let r = &self.reals;
        r.over_of(r.times_of(r.widen_of(hz), r.count_of(n_fft)), r.widen_of(sample_rate))
    }

    fn bin_at(&self, hz: Single, n_fft: usize, sample_rate: Single) -> (answer: Double) {
        let r = &self.reals;
        r.over(r.times(r.widen(hz), r.count(n_fft)), r.widen(sample_rate))
    }

    open spec fn whole_of(&self, n: usize) -> Double {
        let r = &self.reals;
        r.count_of(n)
    }

    fn whole(&self, n: usize) -> (answer: Double) {
        let r = &self.reals;
        r.count(n)
    }

    open spec fn below_of(&self, x: Double) -> usize {
        let r = &self.reals;
        r.whole_of(r.floor_of(x))
    }

    fn below(&self, x: Double) -> (answer: usize) {
        let r = &self.reals;
        r.whole(r.floor(x))
    }

    open spec fn blend_of(&self, a: Double, b: Double, x: Double, i: usize) -> Double {
        let r = &self.reals;
        let u = r.minus_of(x, r.count_of(i));
        r.plus_of(r.times_of(a, r.minus_of((Double { bits: 0x3ff0_0000_0000_0000 }), u)), r.times_of(b, u))
    }

    fn blend(&self, a: Double, b: Double, x: Double, i: usize) -> (answer: Double) {
        let r = &self.reals;
        let u = r.minus(x, r.count(i));
        r.plus(r.times(a, r.minus((Double { bits: 0x3ff0_0000_0000_0000 }), u)), r.times(b, u))
    }

    open spec fn display_len_of(&self, df: Single, sample_rate: Single) -> usize {
        let r = &self.reals;
        if df.above_zero() {
            r.whole_single_of(r.ceil_single_of(r.over_single_of(r.times_single_of((Single { bits: 0x4000_0000 }), sample_rate), df)))
        } else {
            0
        }
    }

    fn display_len(&self, df: Single, sample_rate: Single) -> (answer: usize) {
        let r = &self.reals;
        if df.is_above_zero() {
            r.whole_single(r.ceil_single(r.over_single(r.times_single((Single { bits: 0x4000_0000 }), sample_rate), df)))
        } else {
            0
        }
    }

    open spec fn fast_len_of(&self, n: usize) -> usize {
        fast_len_of(n)
    }

    fn fast_len(&self, n: usize) -> (answer: usize) {
        fast_len(n)
    }

    open spec fn uneven_of(&self, a: Single, b: Single, c: Single) -> bool {
        let r = &self.reals;
        let first = r.minus_single_of(b, a);
        let second = r.minus_single_of(c, b);
        r.times_single_of((Single { bits: 0x3586_37bd }), first.unsigned()).less(r.minus_single_of(first, second).unsigned())
    }

    fn uneven(&self, a: Single, b: Single, c: Single) -> (answer: bool) {
        let r = &self.reals;
        let first = r.minus_single(b, a);
        let second = r.minus_single(c, b);
        r.times_single((Single { bits: 0x3586_37bd }), first.abs()).lt(r.minus_single(first, second).abs())
    }

    open spec fn width_of(&self, a: Single, b: Single, n: usize) -> Single {
        let r = &self.reals;
        r.over_single_of(r.minus_single_of(b, a), r.count_single_of(n))
    }

    fn width(&self, a: Single, b: Single, n: usize) -> (answer: Single) {
        let r = &self.reals;
        r.over_single(r.minus_single(b, a), r.count_single(n))
    }

    open spec fn t_edge_of(&self, start: Double, end: Double, i: usize, n: usize) -> Double {
        let r = &self.reals;
        r.plus_of(start, r.over_of(r.times_of(r.minus_of(end, start), r.count_of(i)), r.count_of(n)))
    }

    fn t_edge(&self, start: Double, end: Double, i: usize, n: usize) -> (answer: Double) {
        let r = &self.reals;
        r.plus(start, r.over(r.times(r.minus(end, start), r.count(i)), r.count(n)))
    }

    open spec fn f_edge_of(&self, start: Single, end: Single, i: usize, n: usize) -> Single {
        let r = &self.reals;
        r.plus_single_of(
            start,
            r.over_single_of(r.times_single_of(r.minus_single_of(end, start), r.count_single_of(i)), r.count_single_of(n)),
        )
    }

    fn f_edge(&self, start: Single, end: Single, i: usize, n: usize) -> (answer: Single) {
        let r = &self.reals;
        r.plus_single(
            start,
            r.over_single(r.times_single(r.minus_single(end, start), r.count_single(i)), r.count_single(n)),
        )
    }

    open spec fn f_edge_log_of(&self, start: Single, end: Single, i: usize, n: usize) -> Single {
        let r = &self.reals;
        let lo = r.ln_single_of(start);
        let hi = r.ln_single_of(end);
        let part = r.over_single_of(r.times_single_of(r.minus_single_of(hi, lo), r.count_single_of(i)), r.count_single_of(n));
        r.exp_single_of(r.plus_single_of(lo, part))
    }

    fn f_edge_log(&self, start: Single, end: Single, i: usize, n: usize) -> (answer: Single) {
        let r = &self.reals;
        let lo = r.ln_single(start);
        let hi = r.ln_single(end);
        let part = r.over_single(r.times_single(r.minus_single(hi, lo), r.count_single(i)), r.count_single(n));
        r.exp_single(r.plus_single(lo, part))
    }

    open spec fn reach_of(&self, f: Single, shape: Shape) -> Single {
        let r = &self.reals;
        r.plus_single_of(f, shape.bandwidth(r))
    }

    fn reach(&self, f: Single, shape: Shape) -> (answer: Single) {
        let r = &self.reals;
        r.plus_single(f, shape.bandwidth_hz(r))
    }

    open spec fn top_of(&self, f_hi: Single, sample_rate: Single) -> Single {
        let r = &self.reals;
        r.times_single_of((Single { bits: 0x3fa0_0000 }), f_hi).smaller(r.over_single_of(sample_rate, (Single { bits: 0x4000_0000 }))).larger((Single { bits: 0x3f80_0000 }))
    }

    fn top(&self, f_hi: Single, sample_rate: Single) -> (answer: Single) {
        let r = &self.reals;
        r.times_single((Single { bits: 0x3fa0_0000 }), f_hi).min(r.over_single(sample_rate, (Single { bits: 0x4000_0000 }))).max((Single { bits: 0x3f80_0000 }))
    }

    open spec fn bottom_of(&self, f_lo: Single) -> Single {
        let r = &self.reals;
        r.times_single_of((Single { bits: 0x3f00_0000 }), f_lo).larger((Single { bits: 0x41a0_0000 }))
    }

    fn bottom(&self, f_lo: Single) -> (answer: Single) {
        let r = &self.reals;
        r.times_single((Single { bits: 0x3f00_0000 }), f_lo).max((Single { bits: 0x41a0_0000 }))
    }

    open spec fn nyquist_of(&self, sample_rate: Single) -> Single {
        let r = &self.reals;
        r.over_single_of(sample_rate, (Single { bits: 0x4000_0000 }))
    }

    fn nyquist(&self, sample_rate: Single) -> (answer: Single) {
        let r = &self.reals;
        r.over_single(sample_rate, (Single { bits: 0x4000_0000 }))
    }

    open spec fn sample_of(&self, t: i64) -> Double {
        let r = &self.reals;
        r.long_of(t as i128)
    }

    fn sample(&self, t: i64) -> (answer: Double) {
        let r = &self.reals;
        r.long(t as i128)
    }

    open spec fn stretched_of(&self, lo: Single, hi: Single) -> Single {
        let r = &self.reals;
        hi.larger(r.times_single_of(lo, (Single { bits: 0x3f80_0054 })))
    }

    fn stretched(&self, lo: Single, hi: Single) -> (answer: Single) {
        let r = &self.reals;
        hi.max(r.times_single(lo, (Single { bits: 0x3f80_0054 })))
    }

    open spec fn spread_of(&self, cell: Double, t_edge: Double, t_next: Double, f_edge: Single, f_next: Single, sample_rate: Single) -> Double {
        let r = &self.reals;
        let dt = r.over_of(r.minus_of(t_next, t_edge), r.widen_of(sample_rate));
        let df = r.widen_of(r.minus_single_of(f_next, f_edge));
        r.times_of(cell, r.over_of((Double { bits: 0x3ff0_0000_0000_0000 }), r.times_of(dt, df).larger((Double { bits: 0x0010_0000_0000_0000 }))))
    }

    fn spread(&self, cell: Double, t_edge: Double, t_next: Double, f_edge: Single, f_next: Single, sample_rate: Single) -> (answer: Double) {
        let r = &self.reals;
        let dt = r.over(r.minus(t_next, t_edge), r.widen(sample_rate));
        let df = r.widen(r.minus_single(f_next, f_edge));
        r.times(cell, r.over((Double { bits: 0x3ff0_0000_0000_0000 }), r.times(dt, df).max((Double { bits: 0x0010_0000_0000_0000 }))))
    }

    open spec fn even_level_of(&self, energy: Double, t_span: (Double, Double), f_span: (Single, Single), sample_rate: Single, peak: Double) -> Double {
        let r = &self.reals;
        let dt = r.over_of(r.minus_of(t_span.1, t_span.0), r.widen_of(sample_rate));
        let df = r.widen_of(r.minus_single_of(f_span.1, f_span.0));
        r.over_of(energy, r.times_of(dt, df).larger((Double { bits: 0x0010_0000_0000_0000 }))).larger(r.times_of(peak, (Double { bits: 0x39b4_484b_feeb_c2a0 })))
    }

    fn even_level(&self, energy: Double, t_span: (Double, Double), f_span: (Single, Single), sample_rate: Single, peak: Double) -> (answer: Double) {
        let r = &self.reals;
        let dt = r.over(r.minus(t_span.1, t_span.0), r.widen(sample_rate));
        let df = r.widen(r.minus_single(f_span.1, f_span.0));
        r.over(energy, r.times(dt, df).max((Double { bits: 0x0010_0000_0000_0000 }))).max(r.times(peak, (Double { bits: 0x39b4_484b_feeb_c2a0 })))
    }

    open spec fn decibels_of(&self, v: Double, reference: Double, floor_db: Single) -> Single {
        let r = &self.reals;
        r.narrow_of(
            r.times_of((Double { bits: 0x4024_0000_0000_0000 }), r.log10_of(r.over_of(v, reference))).within(r.widen_of(floor_db.mirrored()), (Double { bits: 0x7ff0_0000_0000_0000 })),
        )
    }

    fn decibels(&self, v: Double, reference: Double, floor_db: Single) -> (answer: Single) {
        let r = &self.reals;
        r.narrow(
            r.times((Double { bits: 0x4024_0000_0000_0000 }), r.log10(r.over(v, reference))).clamp(r.widen(floor_db.negated()), (Double { bits: 0x7ff0_0000_0000_0000 })),
        )
    }

    open spec fn negated_of(&self, x: Single) -> Single {
        x.mirrored()
    }

    fn negated(&self, x: Single) -> (answer: Single) {
        x.negated()
    }

    open spec fn held_of(&self, u: Double) -> Double {
        u.within((Double { bits: 0 }), (Double { bits: 0x3ff0_0000_0000_0000 }))
    }

    fn held(&self, u: Double) -> (answer: Double) {
        u.clamp((Double { bits: 0 }), (Double { bits: 0x3ff0_0000_0000_0000 }))
    }

    open spec fn between_of(&self, u: Double, s: Stretch) -> u8 {
        let r = &self.reals;
        let t = r.over_of(r.minus_of(u, s.from), r.minus_of(s.to, s.from)).within((Double { bits: 0 }), (Double { bits: 0x3ff0_0000_0000_0000 }));
        let low = r.count_of(s.low as usize);
        r.byte_of(r.plus_of(low, r.times_of(r.minus_of(r.count_of(s.high as usize), low), t)))
    }

    fn between(&self, u: Double, s: Stretch) -> (answer: u8) {
        let r = &self.reals;
        let t = r.over(r.minus(u, s.from), r.minus(s.to, s.from)).clamp((Double { bits: 0 }), (Double { bits: 0x3ff0_0000_0000_0000 }));
        let low = r.count(s.low as usize);
        r.byte(r.plus(low, r.times(r.minus(r.count(s.high as usize), low), t)))
    }

}

/// A level is ten times the decimal logarithm of a ratio of energies, and the floor where that is lower:
/// a tenth of the reference reads ten decibels down, a hundredth twenty.
pub proof fn law_levels_are_tens_of_logarithms<R, Render, Power>(
    m: &MapFigures<R, Render, Power>,
    l: spec_fn(real) -> real,
    v: Double,
    reference: Double,
    floor_db: Single,
) where
    R: Reals,
    Render: Fn(Shape, Single) -> Result<Envelope, FofError>,
    Power: Fn(Selection, Single, usize, usize) -> Vec<Double>,

    requires
        rounds(&m.reals),
        is_logarithm(l, 10real),
        takes_log10s(&m.reals, l),
        v.finite(),
        reference.finite(),
        floor_db.finite(),
        0real < v.value(),
        0real < reference.value(),
        tame(v.value() / reference.value()),
        tame(floor_db.value()),
    ensures
        m.decibels_of(v, reference, floor_db).finite(),
        exists|ratio: real, level: real|
            {
                &&& #[trigger] close(ratio, v.value() / reference.value(), 1)
                &&& #[trigger] close(level, 10real * l(ratio), 3)
                &&& close(
                    m.decibels_of(v, reference, floor_db).value(),
                    most(level, -floor_db.value()),
                    1,
                )
            },
{
    let r = &m.reals;
    lemma_small_numbers();
    let ten = Double { bits: 0x4024_0000_0000_0000 };
    let q = r.over_of(v, reference);
    let ideal = v.value() / reference.value();
    assert(gives(q, ideal));
    let ratio = q.value();
    lemma_close_sign(ratio, ideal, 1);
    let log = r.log10_of(q);
    assert(is_log(log, l(ratio)));
    let level = r.times_of(ten, log);
    assert(moderate(10real * log.value()));
    assert(gives(level, 10real * log.value()));
    assert(close(10real * log.value(), 10real * l(ratio), 1));
    lemma_close_through(level.value(), 10real * log.value(), 10real * l(ratio), 1, 1);
    let low = r.widen_of(floor_db.mirrored());
    lemma_mirrored_single(floor_db);
    lemma_in_order(level, low);
    let top = Double { bits: 0x7ff0_0000_0000_0000 };
    let shown = level.within(low, top);
    assert(!top.less(level));
    assert(shown.value() == most(level.value(), -floor_db.value()));
    lemma_close_sign(level.value(), 10real * log.value(), 1);
    lemma_close_mirrored(level.value(), 10real * log.value(), 1);
    lemma_close_sign(-level.value(), -(10real * log.value()), 1);
    assert(moderate(shown.value()));
    assert(gives_single(r.narrow_of(shown), shown.value()));
    assert(close(ratio, ideal, 1) && close(level.value(), 10real * l(ratio), 3));
}

proof fn lemma_map_constants()
    ensures
        (Single { bits: 0x3fa0_0000 }).finite(),
        (Single { bits: 0x3fa0_0000 }).value() == 125real / 100real,
        (Single { bits: 0x3f00_0000 }).finite(),
        (Single { bits: 0x3f00_0000 }).value() == 1real / 2real,
        (Single { bits: 0x41a0_0000 }).finite(),
        (Single { bits: 0x41a0_0000 }).value() == 20real,
{
    vstd::arithmetic::power2::lemma2_to64();
    lemma_single_above_one(Single { bits: 0x3fa0_0000 }, 0, 0x20_0000);
    lemma_single_below_one(Single { bits: 0x3f00_0000 }, 1, 0);
    lemma_single_above_one(Single { bits: 0x41a0_0000 }, 4, 0x20_0000);
    assert(0x80_0000 * pow2(1) == 0x100_0000);
    assert((0x80_0000 * pow2(1)) as real == 0x100_0000real);
}

/// Columns are evenly spaced: edge `i` of `n` lies `i / n` of the way from the start to the end.
pub proof fn law_columns_are_even<R, Render, Power>(
    m: &MapFigures<R, Render, Power>,
    start: Double,
    end: Double,
    i: usize,
    n: usize,
) where
    R: Reals,
    Render: Fn(Shape, Single) -> Result<Envelope, FofError>,
    Power: Fn(Selection, Single, usize, usize) -> Vec<Double>,

    requires
        rounds(&m.reals),
        start.finite() && end.finite(),
        1 <= i <= n,
        0real <= start.value(),
        tame(end.value() - start.value()),
        tame((end.value() - start.value()) * i as real),
        tame((end.value() - start.value()) * i as real / n as real),
        tame(start.value() + (end.value() - start.value()) * i as real / n as real),
    ensures
        m.t_edge_of(start, end, i, n).finite(),
        close(
            m.t_edge_of(start, end, i, n).value(),
            start.value() + (end.value() - start.value()) * i as real / n as real,
            12,
        ),
{
    let r = &m.reals;
    let span = end.value() - start.value();
    lemma_minus(r, end, start);
    lemma_counts(r, i);
    lemma_counts(r, n);
    let d = r.minus_of(end, start);
    lemma_times(r, d, r.count_of(i), span, i as real, 1, 1);
    let part = r.times_of(d, r.count_of(i));
    lemma_over(r, part, r.count_of(n), span * i as real, n as real, 5, 1);
    lemma_close_to_itself(start.value(), 10);
    lemma_plus(
        r,
        start,
        r.over_of(part, r.count_of(n)),
        start.value(),
        span * i as real / n as real,
        10,
    );
}

/// Rows of a linear axis are evenly spaced.
pub proof fn law_rows_are_even<R, Render, Power>(
    m: &MapFigures<R, Render, Power>,
    start: Single,
    end: Single,
    i: usize,
    n: usize,
) where
    R: Reals,
    Render: Fn(Shape, Single) -> Result<Envelope, FofError>,
    Power: Fn(Selection, Single, usize, usize) -> Vec<Double>,

    requires
        rounds(&m.reals),
        start.finite() && end.finite(),
        1 <= i <= n,
        0real <= start.value(),
        tame(end.value() - start.value()),
        tame((end.value() - start.value()) * i as real),
        tame((end.value() - start.value()) * i as real / n as real),
        tame(start.value() + (end.value() - start.value()) * i as real / n as real),
    ensures
        m.f_edge_of(start, end, i, n).finite(),
        close(
            m.f_edge_of(start, end, i, n).value(),
            start.value() + (end.value() - start.value()) * i as real / n as real,
            12,
        ),
{
    let r = &m.reals;
    let span = end.value() - start.value();
    let d = r.minus_single_of(end, start);
    assert(gives_single(d, span));
    lemma_counts(r, i);
    lemma_counts(r, n);
    lemma_times_single(r, d, r.count_single_of(i), span, i as real, 1, 1);
    let part = r.times_single_of(d, r.count_single_of(i));
    lemma_over_single(r, part, r.count_single_of(n), span * i as real, n as real, 5, 1);
    lemma_close_to_itself(start.value(), 10);
    lemma_plus_single(
        r,
        start,
        r.over_single_of(part, r.count_single_of(n)),
        start.value(),
        span * i as real / n as real,
        10,
    );
}

/// A frequency's place among the bins of a transform is its share of the sample rate, times their
/// number.
pub proof fn law_a_frequency_has_its_bin<R, Render, Power>(
    m: &MapFigures<R, Render, Power>,
    hz: Single,
    n_fft: usize,
    sample_rate: Single,
) where
    R: Reals,
    Render: Fn(Shape, Single) -> Result<Envelope, FofError>,
    Power: Fn(Selection, Single, usize, usize) -> Vec<Double>,

    requires
        rounds(&m.reals),
        hz.finite() && sample_rate.finite(),
        1 <= n_fft,
        0real < hz.value(),
        0real < sample_rate.value(),
        tame(hz.value() * n_fft as real),
        tame(hz.value() * n_fft as real / sample_rate.value()),
    ensures
        m.bin_at_of(hz, n_fft, sample_rate).finite(),
        close(
            m.bin_at_of(hz, n_fft, sample_rate).value(),
            hz.value() * n_fft as real / sample_rate.value(),
            8,
        ),
{
    let r = &m.reals;
    lemma_counts(r, n_fft);
    lemma_close_to_itself(hz.value(), 0);
    lemma_close_to_itself(sample_rate.value(), 0);
    let (h, s) = (r.widen_of(hz), r.widen_of(sample_rate));
    lemma_times(r, h, r.count_of(n_fft), hz.value(), n_fft as real, 0, 1);
    lemma_over(
        r,
        r.times_of(h, r.count_of(n_fft)),
        s,
        hz.value() * n_fft as real,
        sample_rate.value(),
        4,
        0,
    );
}

/// An atom's energy goes with the square of its amplitude.
pub proof fn law_energy_goes_with_amplitude_squared<R, Render, Power>(
    m: &MapFigures<R, Render, Power>,
    amp: Single,
    energy: Double,
) where
    R: Reals,
    Render: Fn(Shape, Single) -> Result<Envelope, FofError>,
    Power: Fn(Selection, Single, usize, usize) -> Vec<Double>,

    requires
        rounds(&m.reals),
        amp.finite() && energy.finite(),
        0real < amp.value(),
        0real < energy.value(),
        tame(amp.value() * amp.value()),
        tame(amp.value() * amp.value() * energy.value()),
    ensures
        m.atom_energy_of(amp, energy).finite(),
        close(m.atom_energy_of(amp, energy).value(), amp.value() * amp.value() * energy.value(), 6),
        m.square_of(amp).finite(),
        close(m.square_of(amp).value(), amp.value() * amp.value(), 3),
{
    let r = &m.reals;
    let (a, x) = (r.widen_of(amp), amp.value());
    lemma_close_to_itself(x, 0);
    lemma_close_to_itself(energy.value(), 0);
    lemma_times(r, a, a, x, x, 0, 0);
    lemma_above(x, x);
    lemma_times(r, r.times_of(a, a), energy, x * x, energy.value(), 3, 0);
}

/// A cell's density is its energy over the seconds and the hertz it covers.
pub proof fn law_density_is_energy_over_area<R, Render, Power>(
    m: &MapFigures<R, Render, Power>,
    cell: Double,
    t: (Double, Double),
    f: (Single, Single),
    sample_rate: Single,
) where
    R: Reals,
    Render: Fn(Shape, Single) -> Result<Envelope, FofError>,
    Power: Fn(Selection, Single, usize, usize) -> Vec<Double>,

    requires
        rounds(&m.reals),
        cell.finite() && t.0.finite() && t.1.finite(),
        f.0.finite() && f.1.finite() && sample_rate.finite(),
        0real < cell.value(),
        0real < sample_rate.value(),
        tame(t.1.value() - t.0.value()),
        tame(f.1.value() - f.0.value()),
        tame((t.1.value() - t.0.value()) / sample_rate.value()),
        tame((t.1.value() - t.0.value()) / sample_rate.value() * (f.1.value() - f.0.value())),
        tame(1real / ((t.1.value() - t.0.value()) / sample_rate.value() * (f.1.value() - f.0.value()))),
        tame(
            cell.value() * (1real / ((t.1.value() - t.0.value()) / sample_rate.value() * (f.1.value()
                - f.0.value()))),
        ),
    ensures
        m.spread_of(cell, t.0, t.1, f.0, f.1, sample_rate).finite(),
        close(
            m.spread_of(cell, t.0, t.1, f.0, f.1, sample_rate).value(),
            cell.value() * (1real / ((t.1.value() - t.0.value()) / sample_rate.value() * (f.1.value()
                - f.0.value()))),
            20,
        ),
{
    let r = &m.reals;
    lemma_small_numbers();
    let (dt, df) = (t.1.value() - t.0.value(), f.1.value() - f.0.value());
    let rate = sample_rate.value();
    lemma_close_to_itself(rate, 0);
    lemma_close_to_itself(1real, 0);
    lemma_close_to_itself(cell.value(), 0);
    lemma_minus(r, t.1, t.0);
    let a = r.minus_of(t.1, t.0);
    let w = r.widen_of(sample_rate);
    lemma_over(r, a, w, dt, rate, 1, 0);
    let b = r.minus_single_of(f.1, f.0);
    assert(gives_single(b, df));
    let (x, y) = (r.over_of(a, w), r.widen_of(b));
    lemma_times(r, x, y, dt / rate, df, 5, 1);
    let area = r.times_of(x, y);
    let real_area = dt / rate * df;
    let least = Double { bits: 0x0010_0000_0000_0000 };
    lemma_least_normal(area, real_area);
    lemma_larger(area, least);
    assert(area.larger(least).value() == area.value());
    let one = Double { bits: 0x3ff0_0000_0000_0000 };
    lemma_over(r, one, area.larger(least), 1real, real_area, 0, 9);
    let inverse = r.over_of(one, area.larger(least));
    lemma_times(r, cell, inverse, cell.value(), 1real / real_area, 0, 13);
    lemma_close_looser(
        m.spread_of(cell, t.0, t.1, f.0, f.1, sample_rate).value(),
        cell.value() * (1real / real_area),
        16,
        20,
    );
}

/// Samples are numbered from the first of an atom.
pub proof fn law_instants_count_from_the_onset<R, Render, Power>(
    m: &MapFigures<R, Render, Power>,
    t0: i64,
    n: usize,
) where
    R: Reals,
    Render: Fn(Shape, Single) -> Result<Envelope, FofError>,
    Power: Fn(Selection, Single, usize, usize) -> Vec<Double>,

    requires
        rounds(&m.reals),
        0 <= t0,
        1 <= n,
        t0 + n <= i64::MAX,
    ensures
        m.instant_of(t0, n).finite(),
        close(m.instant_of(t0, n).value(), t0 as real + n as real, 3),
{
    let r = &m.reals;
    lemma_counts(r, n);
    assert(gives(r.long_of(t0 as i128), t0 as i128 as real));
    lemma_plus(r, r.long_of(t0 as i128), r.count_of(n), t0 as real, n as real, 1);
}

/// The axis ends a quarter above the highest an atom reaches, or at half the sample rate, and no lower
/// than 1 Hz; an atom reaches its bandwidth above its carrier.
pub proof fn law_the_ceiling_is_a_quarter_above<R, Render, Power>(
    m: &MapFigures<R, Render, Power>,
    f_hi: Single,
    sample_rate: Single,
) where
    R: Reals,
    Render: Fn(Shape, Single) -> Result<Envelope, FofError>,
    Power: Fn(Selection, Single, usize, usize) -> Vec<Double>,

    requires
        rounds(&m.reals),
        f_hi.finite() && sample_rate.finite(),
        ordinary(f_hi.value()),
        ordinary(sample_rate.value()),
    ensures
        m.top_of(f_hi, sample_rate).finite(),
        close(
            m.top_of(f_hi, sample_rate).value(),
            most(least(125real / 100real * f_hi.value(), sample_rate.value() / 2real), 1real),
            4,
        ),
        close(m.nyquist_of(sample_rate).value(), sample_rate.value() / 2real, 4),
        close(
            m.bottom_of(f_hi).value(),
            most(f_hi.value() / 2real, 20real),
            4,
        ),
{
    let r = &m.reals;
    lemma_small_numbers();
    lemma_map_constants();
    let (f, fs) = (f_hi.value(), sample_rate.value());
    lemma_close_to_itself(f, 0);
    lemma_close_to_itself(fs, 0);
    lemma_close_to_itself(2real, 0);
    lemma_close_to_itself(125real / 100real, 0);
    lemma_close_to_itself(1real / 2real, 0);
    lemma_close_to_itself(1real, 4);
    lemma_close_to_itself(20real, 4);
    let (up, two, one) = (Single { bits: 0x3fa0_0000 }, Single { bits: 0x4000_0000 }, Single { bits: 0x3f80_0000 });
    lemma_times_single(r, up, f_hi, 125real / 100real, f, 0, 0);
    lemma_over_single(r, sample_rate, two, fs, 2real, 0, 0);
    let (a, b) = (r.times_single_of(up, f_hi), r.over_single_of(sample_rate, two));
    lemma_close_looser(a.value(), 125real / 100real * f, 3, 4);
    lemma_close_most(a.value(), b.value(), 125real / 100real * f, fs / 2real, 4);
    lemma_larger_single(a, b);
    lemma_larger_single(a.smaller(b), one);
    lemma_close_most(
        least(a.value(), b.value()),
        1real,
        least(125real / 100real * f, fs / 2real),
        1real,
        4,
    );
    let (half, floor) = (Single { bits: 0x3f00_0000 }, Single { bits: 0x41a0_0000 });
    lemma_times_single(r, half, f_hi, 1real / 2real, f, 0, 0);
    let c = r.times_single_of(half, f_hi);
    lemma_close_looser(c.value(), 1real / 2real * f, 3, 4);
    lemma_larger_single(c, floor);
    lemma_close_most(c.value(), 20real, 1real / 2real * f, 20real, 4);
}

/// An instant falls in the column whose number is the whole part of its distance from the start, in
/// columns.
pub proof fn law_an_instant_falls_in_its_column<R, Render, Power>(
    m: &MapFigures<R, Render, Power>,
    t: Double,
    lo: Double,
    hi: Double,
    n: usize,
) where
    R: Reals,
    Render: Fn(Shape, Single) -> Result<Envelope, FofError>,
    Power: Fn(Selection, Single, usize, usize) -> Vec<Double>,

    requires
        rounds(&m.reals),
        steps(&m.reals),
        t.finite() && lo.finite() && hi.finite(),
        1 <= n,
        tame(t.value() - lo.value()),
        tame(hi.value() - lo.value()),
        tame((hi.value() - lo.value()) / n as real),
        tame((t.value() - lo.value()) / ((hi.value() - lo.value()) / n as real)),
        2real * ((t.value() - lo.value()) / ((hi.value() - lo.value()) / n as real))
            <= 1_000_000_000real,
    ensures
        exists|u: real| #[trigger]
            close(u, (t.value() - lo.value()) / ((hi.value() - lo.value()) / n as real), 11)
                && is_whole_part(m.column_of(t, lo, hi, n) as int, u),
{
    let r = &m.reals;
    let (d, w) = (t.value() - lo.value(), hi.value() - lo.value());
    lemma_minus(r, t, lo);
    lemma_minus(r, hi, lo);
    lemma_counts(r, n);
    lemma_over(r, r.minus_of(hi, lo), r.count_of(n), w, n as real, 1, 1);
    let one = r.over_of(r.minus_of(hi, lo), r.count_of(n));
    lemma_over(r, r.minus_of(t, lo), one, d, w / n as real, 1, 6);
    let u = r.over_of(r.minus_of(t, lo), one);
    lemma_close_sign(u.value(), d / (w / n as real), 11);
    let k = r.whole_of(u) as int;
    assert(is_whole_part(k, u.value()));
    assert(close(u.value(), d / (w / n as real), 11));
}

/// Rows on a logarithmic axis are evenly spaced by their logarithms: edge `i` of `n` lies `i / n` of the
/// way from the start's to the end's.
pub proof fn law_logarithmic_rows_are_even<R, Render, Power>(
    m: &MapFigures<R, Render, Power>,
    l: spec_fn(real) -> real,
    e: spec_fn(real) -> real,
    base: real,
    start: Single,
    end: Single,
    i: usize,
    n: usize,
) where
    R: Reals,
    Render: Fn(Shape, Single) -> Result<Envelope, FofError>,
    Power: Fn(Selection, Single, usize, usize) -> Vec<Double>,

    requires
        rounds(&m.reals),
        is_logarithm(l, base),
        takes_logs_single(&m.reals, l),
        exponentiates(&m.reals, e),
        start.finite() && end.finite(),
        0real < start.value(),
        0real < end.value(),
        1 <= i <= n,
        ({
            let d = m.reals.ln_single_of(end).value() - m.reals.ln_single_of(start).value();
            &&& tame(d)
            &&& tame(d * i as real)
            &&& tame(d * i as real / n as real)
        }),
    ensures
        exists|a: real, b: real, w: real|
            {
                &&& #[trigger] close(a, l(start.value()), 1)
                &&& #[trigger] close(b, l(end.value()), 1)
                &&& #[trigger] close(w, (b - a) * i as real / n as real, 10)
                &&& moderate(a + w) ==> exists|x: real| #[trigger] close(x, a + w, 1)
                    && gives_single(m.f_edge_log_of(start, end, i, n), e(x))
            },
{
    let r = &m.reals;
    let (lo, hi) = (r.ln_single_of(start), r.ln_single_of(end));
    let (a, b) = (lo.value(), hi.value());
    let gap = r.minus_single_of(hi, lo);
    assert(moderate(b - a));
    assert(gives_single(gap, b - a));
    lemma_counts(r, i);
    lemma_counts(r, n);
    lemma_times_single(r, gap, r.count_single_of(i), b - a, i as real, 1, 1);
    let top = r.times_single_of(gap, r.count_single_of(i));
    lemma_over_single(r, top, r.count_single_of(n), (b - a) * i as real, n as real, 5, 1);
    let part = r.over_single_of(top, r.count_single_of(n));
    let w = part.value();
    if moderate(a + w) {
        let x = r.plus_single_of(lo, part);
        assert(gives_single(x, a + w));
        assert(close(x.value(), a + w, 1) && gives_single(
            m.f_edge_log_of(start, end, i, n),
            e(x.value()),
        ));
    }
    assert(close(a, l(start.value()), 1) && close(b, l(end.value()), 1));
    assert(close(w, (b - a) * i as real / n as real, 10));
}

/// Between two entries of a table a value is blended from them, by how far it is from the one and from
/// the other.
pub proof fn law_a_blend_lies_between_its_entries<R, Render, Power>(
    m: &MapFigures<R, Render, Power>,
    a: Double,
    b: Double,
    x: Double,
    i: usize,
    limit: real,
    err: real,
) where
    R: Reals,
    Render: Fn(Shape, Single) -> Result<Envelope, FofError>,
    Power: Fn(Selection, Single, usize, usize) -> Vec<Double>,

    requires
        steady(&m.reals, limit, err),
        0real <= err <= 1real / 8real,
        a.finite() && b.finite() && x.finite(),
        0real <= a.value() && 0real <= b.value(),
        m.reals.count_of(i).finite() && m.reals.count_of(i).value() == i as real,
        i as real <= x.value() <= i as real + 1real,
        2real * a.value() + 2real * b.value() + 8real <= limit,
    ensures
        near(
            m.blend_of(a, b, x, i),
            a.value() * (1real - (x.value() - i as real)) + b.value() * (x.value() - i as real),
            a.value() * (2real * err) + b.value() * err + 3real * err,
        ),
{
    let r = &m.reals;
    lemma_small_numbers();
    let one = Double { bits: 0x3ff0_0000_0000_0000 };
    let u = x.value() - i as real;
    let um = r.minus_of(x, r.count_of(i));
    assert(near(um, u, err));
    let vm = r.minus_of(one, um);
    assert(near(vm, 1real - um.value(), err));
    lemma_scaled_error(a.value(), vm.value(), 0real, 2real);
    lemma_scaled_error(b.value(), um.value(), 0real, 2real);
    assert(a.value() * 0real == 0real && b.value() * 0real == 0real) by (nonlinear_arith);
    assert(a.value() * 2real == 2real * a.value()) by (nonlinear_arith);
    assert(b.value() * 2real == 2real * b.value()) by (nonlinear_arith);
    let (p, q) = (r.times_of(a, vm), r.times_of(b, um));
    assert(near(p, a.value() * vm.value(), err));
    assert(near(q, b.value() * um.value(), err));
    assert(near(r.plus_of(p, q), p.value() + q.value(), err));
    lemma_scaled_error(a.value(), vm.value(), 1real - u, 2real * err);
    lemma_scaled_error(b.value(), um.value(), u, err);
}

/// A transform for display has two bins to the narrowest row: it is twice the sample rate over the row's
/// width long, or the next whole number of samples.
pub proof fn law_a_display_resolves_its_rows<R, Render, Power>(
    m: &MapFigures<R, Render, Power>,
    df: Single,
    sample_rate: Single,
) where
    R: Reals,
    Render: Fn(Shape, Single) -> Result<Envelope, FofError>,
    Power: Fn(Selection, Single, usize, usize) -> Vec<Double>,

    requires
        rounds(&m.reals),
        steps(&m.reals),
        df.finite() && sample_rate.finite(),
        0real < df.value(),
        ordinary(sample_rate.value()),
        tame(2real * sample_rate.value() / df.value()),
        2real * (2real * sample_rate.value() / df.value()) <= 1_000_000_000real,
    ensures
        exists|x: real|
            {
                let n = m.display_len_of(df, sample_rate) as real;
                &&& #[trigger] close(x, 2real * sample_rate.value() / df.value(), 7)
                &&& x <= n
                &&& n < x + 1real
            },
{
    let r = &m.reals;
    lemma_small_numbers();
    lemma_nothing_single();
    lemma_in_order_single(df, Single { bits: 0 });
    lemma_close_to_itself(2real, 0);
    lemma_close_to_itself(sample_rate.value(), 0);
    lemma_close_to_itself(df.value(), 0);
    let two = Single { bits: 0x4000_0000 };
    lemma_times_single(r, two, sample_rate, 2real, sample_rate.value(), 0, 0);
    let top = r.times_single_of(two, sample_rate);
    lemma_over_single(r, top, df, 2real * sample_rate.value(), df.value(), 3, 0);
    let x = r.over_single_of(top, df);
    lemma_close_sign(x.value(), 2real * sample_rate.value() / df.value(), 7);
    let up = r.whole_single_of(r.ceil_single_of(x));
    assert(x.value() <= up as real && (up as real) < x.value() + 1real);
    assert(close(x.value(), 2real * sample_rate.value() / df.value(), 7));
}

/// The level a map's energy would have if it were spread evenly over the map's time and frequency, or a
/// vanishing part of the peak where it is less.
pub proof fn law_the_even_level_is_energy_over_area<R, Render, Power>(
    m: &MapFigures<R, Render, Power>,
    energy: Double,
    t: (Double, Double),
    f: (Single, Single),
    sample_rate: Single,
    peak: Double,
) where
    R: Reals,
    Render: Fn(Shape, Single) -> Result<Envelope, FofError>,
    Power: Fn(Selection, Single, usize, usize) -> Vec<Double>,

    requires
        rounds(&m.reals),
        energy.finite() && t.0.finite() && t.1.finite() && peak.finite(),
        f.0.finite() && f.1.finite() && sample_rate.finite(),
        0real < energy.value(),
        0real < sample_rate.value(),
        0real <= peak.value(),
        tame(t.1.value() - t.0.value()),
        tame(f.1.value() - f.0.value()),
        tame((t.1.value() - t.0.value()) / sample_rate.value()),
        tame((t.1.value() - t.0.value()) / sample_rate.value() * (f.1.value() - f.0.value())),
        tame(
            energy.value() / ((t.1.value() - t.0.value()) / sample_rate.value() * (f.1.value()
                - f.0.value())),
        ),
        moderate(peak.value() * (Double { bits: 0x39b4_484b_feeb_c2a0 }).value()),
    ensures
        (Double { bits: 0x39b4_484b_feeb_c2a0 }).value() <= 1real / 1_000_000_000real,
        exists|level: real, least_level: real|
            {
                &&& #[trigger] close(
                    level,
                    energy.value() / ((t.1.value() - t.0.value()) / sample_rate.value() * (f.1.value()
                        - f.0.value())),
                    15,
                )
                &&& #[trigger] close(
                    least_level,
                    peak.value() * (Double { bits: 0x39b4_484b_feeb_c2a0 }).value(),
                    1,
                )
                &&& m.even_level_of(energy, t, f, sample_rate, peak).finite()
                &&& m.even_level_of(energy, t, f, sample_rate, peak).value() == most(
                    level,
                    least_level,
                )
            },
{
    let r = &m.reals;
    let c = Double { bits: 0x39b4_484b_feeb_c2a0 };
    lemma_vanishing(c);
    let (dt, df) = (t.1.value() - t.0.value(), f.1.value() - f.0.value());
    let rate = sample_rate.value();
    lemma_close_to_itself(rate, 0);
    lemma_close_to_itself(energy.value(), 0);
    lemma_minus(r, t.1, t.0);
    let a = r.minus_of(t.1, t.0);
    let w = r.widen_of(sample_rate);
    lemma_over(r, a, w, dt, rate, 1, 0);
    let b = r.minus_single_of(f.1, f.0);
    assert(gives_single(b, df));
    let (x, y) = (r.over_of(a, w), r.widen_of(b));
    lemma_times(r, x, y, dt / rate, df, 5, 1);
    let area = r.times_of(x, y);
    let tiny = Double { bits: 0x0010_0000_0000_0000 };
    lemma_least_normal(area, dt / rate * df);
    lemma_larger(area, tiny);
    let held = area.larger(tiny);
    lemma_over(r, energy, held, energy.value(), dt / rate * df, 0, 9);
    let level = r.over_of(energy, held);
    let low = r.times_of(peak, c);
    assert(gives(low, peak.value() * c.value()));
    lemma_larger(level, low);
    lemma_close_looser(level.value(), energy.value() / (dt / rate * df), 13, 15);
    assert(close(level.value(), energy.value() / (dt / rate * df), 15) && close(
        low.value(),
        peak.value() * c.value(),
        1,
    ));
}

proof fn lemma_vanishing(c: Double)
    requires
        c.bits == 0x39b4_484b_feeb_c2a0,
    ensures
        c.finite(),
        0real < c.value() <= 1real / 1_000_000_000real,
{
    vstd::arithmetic::power2::lemma2_to64();
    lemma_double_below_one(c, 100, 0x4_484b_feeb_c2a0);
    vstd::arithmetic::power2::lemma_pow2_adds(32, 4);
    vstd::arithmetic::power2::lemma_pow2_adds(64, 36);
    let p = (0x10_0000_0000_0000 * pow2(100)) as real;
    assert(pow2(36) == 0x10_0000_0000);
    assert(pow2(100) == 0x10_0000_0000_0000_0000_0000_0000int);
    assert(p == 0x1_0000_0000_0000_0000_0000_0000_0000_0000_0000_00real);
    assert(c.value() * 0x1_0000_0000_0000_0000_0000_0000_0000_0000_0000_00real
        == 0x14_484b_feeb_c2a0real);
}

proof fn lemma_just_above(lo: real, y: real, c: real)
    by (nonlinear_arith)
    requires
        0real < lo,
        c * 100_000real == 100_001real * lo,
        (c - y) * 1_000_000real <= 5real * c,
    ensures
        lo < y,
{
}

/// A range that is too narrow is stretched upwards, by a hundred-thousandth, and no other is.
pub proof fn law_a_stretched_range_has_a_width<R, Render, Power>(
    m: &MapFigures<R, Render, Power>,
    lo: Single,
    hi: Single,
) where
    R: Reals,
    Render: Fn(Shape, Single) -> Result<Envelope, FofError>,
    Power: Fn(Selection, Single, usize, usize) -> Vec<Double>,

    requires
        rounds(&m.reals),
        lo.finite() && hi.finite(),
        ordinary(lo.value()),
    ensures
        m.stretched_of(lo, hi).finite(),
        hi.value() <= m.stretched_of(lo, hi).value(),
        lo.value() < m.stretched_of(lo, hi).value(),
        m.stretched_of(lo, hi).value() != hi.value() ==> close(
            m.stretched_of(lo, hi).value(),
            100_001real / 100_000real * lo.value(),
            5,
        ),
{
    let r = &m.reals;
    let up = Single { bits: 0x3f80_0054 };
    vstd::arithmetic::power2::lemma2_to64();
    lemma_single_above_one(up, 0, 0x54);
    lemma_within_a_millionth(up.value(), 100_001real / 100_000real);
    lemma_close_to_itself(lo.value(), 0);
    lemma_times_single(r, up, lo, 100_001real / 100_000real, lo.value(), 1, 0);
    let x = r.times_single_of(up, lo);
    let y = r.times_single_of(lo, up);
    assert(gives_single(y, lo.value() * up.value()));
    assert(lo.value() * up.value() == up.value() * lo.value()) by (nonlinear_arith);
    lemma_close_to_itself(up.value(), 0);
    lemma_times_single(r, lo, up, lo.value(), 100_001real / 100_000real, 0, 1);
    assert(lo.value() * (100_001real / 100_000real) == 100_001real / 100_000real * lo.value())
        by (nonlinear_arith);
    lemma_close_looser(y.value(), 100_001real / 100_000real * lo.value(), 4, 5);
    lemma_larger_single(hi, y);
    let c = 100_001real / 100_000real * lo.value();
    assert(c * 100_000real == 100_001real * lo.value());
    assert(0real < c);
    assert(size(y.value() - c) * 1_000_000real <= 5real * c);
    assert(c - y.value() <= size(y.value() - c));
    assert((c - y.value()) * 1_000_000real <= size(y.value() - c) * 1_000_000real);
    lemma_just_above(lo.value(), y.value(), c);
}

/// An atom reaches its bandwidth above its carrier.
pub proof fn law_an_atom_reaches_its_bandwidth_up<R, Render, Power>(
    m: &MapFigures<R, Render, Power>,
    f: Single,
    shape: Shape,
) where
    R: Reals,
    Render: Fn(Shape, Single) -> Result<Envelope, FofError>,
    Power: Fn(Selection, Single, usize, usize) -> Vec<Double>,

    requires
        rounds(&m.reals),
        f.finite() && shape.bandwidth(&m.reals).finite(),
        moderate(f.value() + shape.bandwidth(&m.reals).value()),
    ensures
        m.reach_of(f, shape).finite(),
        close(m.reach_of(f, shape).value(), f.value() + shape.bandwidth(&m.reals).value(), 1),
{
    assert(gives_single(
        m.reach_of(f, shape),
        f.value() + shape.bandwidth(&m.reals).value(),
    ));
}

} // verus!
