//! The floating-point arithmetic a book's statistics ask for.
//!
//! The statistics decide which atom counts where; the formulas are here, over elementary arithmetic.

use crate::atom::{GaussianParams, Shape};
use crate::dict::FofError;
use crate::gauss::DEFAULT_CUTOFF_LEVEL;
use crate::ieee::{Double, Single};
use crate::reals::Reals;
use crate::rounding::{
    close, exponentiates, gives, gives_single, is_log, is_logarithm, is_whole_part, lemma_close_looser,
    lemma_close_mirrored, lemma_close_sign, lemma_close_to_itself, lemma_counts, lemma_in_order,
    lemma_larger, lemma_least_normal, lemma_mirrored, lemma_one_more, lemma_over, lemma_over_single,
    lemma_small_numbers, lemma_times, lemma_times_single, lemma_unsigned, lemma_unsigned_single,
    moderate, near, rounds, size, steady, steps, takes_logs, tame, within,
};
use vstd::prelude::*;

verus! {

/// A formula, and the numbers it is over.
#[derive(Clone, Copy, Debug, PartialEq, Eq, Structural)]
pub enum Term {
    /// The number itself.
    Number(Single),
    /// `x / PI`.
    OverPi(Single),
    /// `sqrt(ln 2) / (PI sigma)`.
    GaussianWidth(Single),
    /// `x * 1000`.
    Milli(Single),
    /// `a * b`.
    Product(Single, Single),
    /// Decibels relative to full scale.
    Decibels(Single),
    /// `10 log10(a / b)`.
    EnergyRatio(Double, Double),
    /// Samples over a sample rate.
    Seconds(i64, Single),
    /// Samples over a sample rate, in milliseconds.
    Milliseconds(usize, Single),
    /// `f * PI / alpha`.
    FofQ(Single, Single),
    /// `f / width`.
    OverWidth(Single, Double),
    /// `alpha / (2 PI f)`.
    Rho(Single, Single),
    /// Samples times a frequency over a sample rate.
    Cycles(usize, Single, Single),
    /// A whole number.
    Index(usize),
}

/// The axis a histogram is binned on.
#[derive(Clone, Copy, Debug, PartialEq, Eq, Structural)]
pub struct Axis {
    pub lo: Double,
    pub hi: Double,
    pub first_edge: Double,
    pub last_edge: Double,
    pub log: bool,
}

/// The arithmetic, one method to a formula.
pub trait Calc {
    /// The arithmetic is defined everywhere and repeats itself.
    spec fn repeatable(&self) -> bool;

    spec fn mean_of(&self, xs: Seq<Double>) -> Double;

    spec fn percent_of(&self, k: u128, n: usize) -> Seq<char>;

    spec fn value_of(&self, t: Term) -> Double;

    spec fn approx_of(&self, shape: Shape) -> usize;

    spec fn render_len_of(&self, shape: Shape) -> Result<usize, FofError>;

    spec fn widen_of(&self, min: Double, max: Double, log: bool) -> (Double, Double);

    spec fn edge_of(&self, lo: Double, hi: Double, log: bool, i: usize, bins: usize) -> Double;

    spec fn slot_of(&self, x: Double, span: Axis, bins: usize) -> usize;

    spec fn plus_of(&self, a: Double, b: Double) -> Double;

    spec fn over_of(&self, a: Double, b: Double) -> Double;

    spec fn minus_of(&self, a: Double, b: Double) -> Double;

    spec fn gap_of(&self, a: Double, b: Double) -> Double;

    spec fn walk_of(&self, a: Single, b: Single) -> Double;

    spec fn detune_of(&self, f: Single, sample_rate: Single, fft_len: usize, bin: usize) -> Double;

    spec fn whole_of(&self, n: u64) -> Double;

    spec fn square_over_of(&self, rho: Single, max: Single) -> bool;

    spec fn fraction_of(&self, k: usize, n: usize) -> Double;

    spec fn reaches_of(&self, initial: Double, residual: Double, target_db: Single) -> bool;

    spec fn snr_of(&self, initial: Double, residual: Double) -> Single;

    /// The mean of some numbers, added in their order.
    fn mean(&self, xs: &[Double]) -> (r: Double)
        requires
            self.repeatable(),
        ensures
            r == self.mean_of(xs@),
    ;

    /// `k` of `n` in percent, to the nearest whole one.
    fn percent(&self, k: u128, n: usize) -> (r: String)
        requires
            self.repeatable(),
        ensures
            r@ == self.percent_of(k, n),
    ;

    /// The formula a term names.
    fn value(&self, t: Term) -> (r: Double)
        requires
            self.repeatable(),
        ensures
            r == self.value_of(t),
    ;

    /// A shape's support by formula, in samples.
    fn approx(&self, shape: Shape) -> (r: usize)
        requires
            self.repeatable(),
        ensures
            r == self.approx_of(shape),
    ;

    /// A shape's support by rendering it, in samples.
    fn render_len(&self, shape: Shape) -> (r: Result<usize, FofError>)
        requires
            self.repeatable(),
        ensures
            r == self.render_len_of(shape),
    ;

    /// A range to draw a sample of one value on.
    fn widen(&self, min: Double, max: Double, log: bool) -> (r: (Double, Double))
        requires
            self.repeatable(),
        ensures
            r == self.widen_of(min, max, log),
    ;

    /// Edge `i` of `bins` between `lo` and `hi`, geometric when `log`.
    fn edge(&self, lo: Double, hi: Double, log: bool, i: usize, bins: usize) -> (r: Double)
        requires
            self.repeatable(),
        ensures
            r == self.edge_of(lo, hi, log, i, bins),
    ;

    /// The bin `x` falls in, of `bins` over an axis.
    fn slot(&self, x: Double, span: Axis, bins: usize) -> (r: usize)
        requires
            self.repeatable(),
        ensures
            r == self.slot_of(x, span, bins),
    ;

    /// `a + b`.
    fn plus(&self, a: Double, b: Double) -> (r: Double)
        requires
            self.repeatable(),
        ensures
            r == self.plus_of(a, b),
    ;

    /// `a / b`.
    fn over(&self, a: Double, b: Double) -> (r: Double)
        requires
            self.repeatable(),
        ensures
            r == self.over_of(a, b),
    ;

    /// `a - b`.
    fn minus(&self, a: Double, b: Double) -> (r: Double)
        requires
            self.repeatable(),
        ensures
            r == self.minus_of(a, b),
    ;

    /// `|a - b| / b`.
    fn gap(&self, a: Double, b: Double) -> (r: Double)
        requires
            self.repeatable(),
        ensures
            r == self.gap_of(a, b),
    ;

    /// `|ln(a / b)|`.
    fn walk(&self, a: Single, b: Single) -> (r: Double)
        requires
            self.repeatable(),
        ensures
            r == self.walk_of(a, b),
    ;

    /// `|f - bin|`, Hz, for a bin of a transform.
    fn detune(&self, f: Single, sample_rate: Single, fft_len: usize, bin: usize) -> (r: Double)
        requires
            self.repeatable(),
        ensures
            r == self.detune_of(f, sample_rate, fft_len, bin),
    ;

    /// A whole number.
    fn whole(&self, n: u64) -> (r: Double)
        requires
            self.repeatable(),
        ensures
            r == self.whole_of(n),
    ;

    /// `rho * rho > max`.
    fn square_over(&self, rho: Single, max: Single) -> (r: bool)
        requires
            self.repeatable(),
        ensures
            r == self.square_over_of(rho, max),
    ;

    /// `k / n`.
    fn fraction(&self, k: usize, n: usize) -> (r: Double)
        requires
            self.repeatable(),
        ensures
            r == self.fraction_of(k, n),
    ;

    /// The residual is at least `target_db` below the initial energy.
    fn reaches(&self, initial: Double, residual: Double, target_db: Single) -> (r: bool)
        requires
            self.repeatable(),
        ensures
            r == self.reaches_of(initial, residual, target_db),
    ;

    /// How far the residual is below the initial energy, dB.
    fn snr(&self, initial: Double, residual: Double) -> (r: Single)
        requires
            self.repeatable(),
        ensures
            r == self.snr_of(initial, residual),
    ;

}

/// The sum of some numbers, added in their order.
pub open spec fn total<R: Reals>(r: &R, xs: Seq<Double>) -> Double
    decreases xs.len(),
{
    if xs.len() == 0 {
        (Double { bits: 0x8000_0000_0000_0000 })
    } else {
        r.plus_of(total(r, xs.drop_last()), xs.last())
    }
}

/// [`Calc`] over elementary arithmetic, at a sample rate.
pub struct Figures<R, Render, Decibels, Snr> {
    pub reals: R,
    pub sample_rate: Single,
    /// A shape's support by rendering it, in samples.
    pub render_len: Render,
    /// Decibels relative to full scale.
    pub decibels: Decibels,
    /// How far a residual is below an initial energy, dB.
    pub snr: Snr,
}

impl<R, Render, Decibels, Snr> Calc for Figures<R, Render, Decibels, Snr> where
    R: Reals,
    Render: Fn(Shape) -> Result<usize, FofError>,
    Decibels: Fn(Single) -> Double,
    Snr: Fn(Double, Double) -> Single,
 {
    open spec fn repeatable(&self) -> bool {
        &&& self.reals.repeatable()
        &&& forall|shape: Shape| #[trigger] call_requires(self.render_len, (shape,))
        &&& forall|shape: Shape, first: Result<usize, FofError>, second: Result<usize, FofError>| #[trigger]
            call_ensures(self.render_len, (shape,), first) && #[trigger] call_ensures(
                self.render_len,
                (shape,),
                second,
            ) ==> first == second
        &&& forall|x: Single| #[trigger] call_requires(self.decibels, (x,))
        &&& forall|x: Single, first: Double, second: Double| #[trigger]
            call_ensures(self.decibels, (x,), first) && #[trigger] call_ensures(
                self.decibels,
                (x,),
                second,
            ) ==> first == second
        &&& forall|a: Double, b: Double| #[trigger] call_requires(self.snr, (a, b))
        &&& forall|a: Double, b: Double, first: Single, second: Single| #[trigger]
            call_ensures(self.snr, (a, b), first) && #[trigger] call_ensures(self.snr, (a, b), second)
                ==> first == second
    }

    open spec fn mean_of(&self, xs: Seq<Double>) -> Double {
        self.reals.over_of(total(&self.reals, xs), self.reals.count_of(xs.len() as usize))
    }

    fn mean(&self, xs: &[Double]) -> (answer: Double) {
        let r = &self.reals;
        let mut sum = (Double { bits: 0x8000_0000_0000_0000 });
        for i in 0..xs.len()
            invariant
                r.repeatable(),
                r == &self.reals,
                sum == total(&self.reals, xs@.take(i as int)),
        {
            assert(xs@.take(i + 1).drop_last() =~= xs@.take(i as int));
            sum = r.plus(sum, xs[i]);
        }
        assert(xs@.take(xs.len() as int) =~= xs@);
        r.over(sum, r.count(xs.len()))
    }

    open spec fn percent_of(&self, k: u128, n: usize) -> Seq<char> {
        let r = &self.reals;
        r.fixed_of(r.over_of(r.times_of((Double { bits: 0x4059_0000_0000_0000 }), r.huge_of(k)), r.count_of(n)), 0)
    }

    fn percent(&self, k: u128, n: usize) -> (answer: String) {
        let r = &self.reals;
        r.fixed(r.over(r.times((Double { bits: 0x4059_0000_0000_0000 }), r.huge(k)), r.count(n)), 0)
    }

    open spec fn value_of(&self, t: Term) -> Double {
        let r = &self.reals;
        match t {
            Term::Number(x) => r.widen_of(x),
            Term::OverPi(x) => r.over_of(r.widen_of(x), (Double { bits: 0x4009_21fb_5444_2d18 })),
            Term::GaussianWidth(sigma) => {
                let g = GaussianParams { sigma, cutoff_level: Single { bits: DEFAULT_CUTOFF_LEVEL } };
                r.widen_of(g.bandwidth(r))
            },
            Term::Milli(x) => r.times_of(r.widen_of(x), (Double { bits: 0x408f_4000_0000_0000 })),
            Term::Product(a, b) => r.times_of(r.widen_of(a), r.widen_of(b)),
            Term::Decibels(x) => choose|answer: Double| call_ensures(self.decibels, (x,), answer),
            Term::EnergyRatio(a, b) => r.times_of((Double { bits: 0x4024_0000_0000_0000 }), r.log10_of(r.over_of(a, b))),
            Term::Seconds(n, sample_rate) => r.over_of(r.long_of(n as i128), r.widen_of(sample_rate)),
            Term::Milliseconds(n, sample_rate) => r.over_of(
                r.times_of(r.count_of(n), (Double { bits: 0x408f_4000_0000_0000 })),
                r.widen_of(sample_rate),
            ),
            Term::FofQ(f, alpha) => r.over_of(r.times_of(r.widen_of(f), (Double { bits: 0x4009_21fb_5444_2d18 })), r.widen_of(alpha)),
            Term::OverWidth(f, width) => r.over_of(r.widen_of(f), width),
            Term::Rho(alpha, f) => r.over_of(r.widen_of(alpha), r.times_of((Double { bits: 0x4019_21fb_5444_2d18 }), r.widen_of(f))),
            Term::Cycles(n, f, sample_rate) => r.over_of(
                r.times_of(r.count_of(n), r.widen_of(f)),
                r.widen_of(sample_rate),
            ),
            Term::Index(n) => r.count_of(n),
        }
    }

    fn value(&self, t: Term) -> (answer: Double) {
        let r = &self.reals;
        match t {
            Term::Number(x) => r.widen(x),
            Term::OverPi(x) => r.over(r.widen(x), (Double { bits: 0x4009_21fb_5444_2d18 })),
            Term::GaussianWidth(sigma) => {
                let g = GaussianParams { sigma, cutoff_level: Single { bits: DEFAULT_CUTOFF_LEVEL } };
                r.widen(g.bandwidth_hz(r))
            },
            Term::Milli(x) => r.times(r.widen(x), (Double { bits: 0x408f_4000_0000_0000 })),
            Term::Product(a, b) => r.times(r.widen(a), r.widen(b)),
            Term::Decibels(x) => (self.decibels)(x),
            Term::EnergyRatio(a, b) => r.times((Double { bits: 0x4024_0000_0000_0000 }), r.log10(r.over(a, b))),
            Term::Seconds(n, sample_rate) => r.over(r.long(n as i128), r.widen(sample_rate)),
            Term::Milliseconds(n, sample_rate) => r.over(
                r.times(r.count(n), (Double { bits: 0x408f_4000_0000_0000 })),
                r.widen(sample_rate),
            ),
            Term::FofQ(f, alpha) => r.over(r.times(r.widen(f), (Double { bits: 0x4009_21fb_5444_2d18 })), r.widen(alpha)),
            Term::OverWidth(f, width) => r.over(r.widen(f), width),
            Term::Rho(alpha, f) => r.over(r.widen(alpha), r.times((Double { bits: 0x4019_21fb_5444_2d18 }), r.widen(f))),
            Term::Cycles(n, f, sample_rate) => r.over(
                r.times(r.count(n), r.widen(f)),
                r.widen(sample_rate),
            ),
            Term::Index(n) => r.count(n),
        }
    }

    open spec fn approx_of(&self, shape: Shape) -> usize {
        let r = &self.reals;
        shape.estimate(r, self.sample_rate)
    }

    fn approx(&self, shape: Shape) -> (answer: usize) {
        let r = &self.reals;
        shape.approx_support_len(r, self.sample_rate)
    }

    open spec fn render_len_of(&self, shape: Shape) -> Result<usize, FofError> {
        choose|answer: Result<usize, FofError>| call_ensures(self.render_len, (shape,), answer)
    }

    fn render_len(&self, shape: Shape) -> (answer: Result<usize, FofError>) {
        (self.render_len)(shape)
    }

    open spec fn widen_of(&self, min: Double, max: Double, log: bool) -> (Double, Double) {
        let r = &self.reals;
        if log {
            (r.times_of(min, (Double { bits: 0x3fe0_0000_0000_0000 })), r.times_of(max, (Double { bits: 0x4000_0000_0000_0000 })))
        } else {
            (r.minus_of(min, (Double { bits: 0x3fe0_0000_0000_0000 })), r.plus_of(max, (Double { bits: 0x3fe0_0000_0000_0000 })))
        }
    }

    fn widen(&self, min: Double, max: Double, log: bool) -> (answer: (Double, Double)) {
        let r = &self.reals;
        if log {
            (r.times(min, (Double { bits: 0x3fe0_0000_0000_0000 })), r.times(max, (Double { bits: 0x4000_0000_0000_0000 })))
        } else {
            (r.minus(min, (Double { bits: 0x3fe0_0000_0000_0000 })), r.plus(max, (Double { bits: 0x3fe0_0000_0000_0000 })))
        }
    }

    open spec fn edge_of(&self, lo: Double, hi: Double, log: bool, i: usize, bins: usize) -> Double {
        let r = &self.reals;
        if log {
            let l0 = r.ln_of(lo.larger((Double { bits: 0x0010_0000_0000_0000 })));
            let l1 = r.ln_of(hi.larger((Double { bits: 0x0010_0000_0000_0000 })));
            r.exp_of(r.plus_of(l0, r.over_of(r.times_of(r.minus_of(l1, l0), r.count_of(i)), r.count_of(bins))))
        } else {
            r.plus_of(lo, r.over_of(r.times_of(r.minus_of(hi, lo), r.count_of(i)), r.count_of(bins)))
        }
    }

    fn edge(&self, lo: Double, hi: Double, log: bool, i: usize, bins: usize) -> (answer: Double) {
        let r = &self.reals;
        if log {
            let l0 = r.ln(lo.max((Double { bits: 0x0010_0000_0000_0000 })));
            let l1 = r.ln(hi.max((Double { bits: 0x0010_0000_0000_0000 })));
            r.exp(r.plus(l0, r.over(r.times(r.minus(l1, l0), r.count(i)), r.count(bins))))
        } else {
            r.plus(lo, r.over(r.times(r.minus(hi, lo), r.count(i)), r.count(bins)))
        }
    }

    open spec fn slot_of(&self, x: Double, span: Axis, bins: usize) -> usize {
        let r = &self.reals;
        let u = if span.log {
            let l0 = r.ln_of(span.first_edge);
            r.over_of(r.minus_of(r.ln_of(x), l0), r.minus_of(r.ln_of(span.last_edge), l0))
        } else {
            r.over_of(r.minus_of(x, span.lo), r.minus_of(span.hi, span.lo))
        };
        let i = r.whole_of(r.times_of(u, r.count_of(bins)));
        if i < bins {
            i
        } else if bins == 0 {
            0
        } else {
            (bins - 1) as usize
        }
    }

    fn slot(&self, x: Double, span: Axis, bins: usize) -> (answer: usize) {
        let r = &self.reals;
        let u = if span.log {
            let l0 = r.ln(span.first_edge);
            r.over(r.minus(r.ln(x), l0), r.minus(r.ln(span.last_edge), l0))
        } else {
            r.over(r.minus(x, span.lo), r.minus(span.hi, span.lo))
        };
        let i: usize = r.whole(r.times(u, r.count(bins)));
        if i < bins {
            i
        } else if bins == 0 {
            0
        } else {
            bins - 1
        }
    }

    open spec fn plus_of(&self, a: Double, b: Double) -> Double {
        let r = &self.reals;
        r.plus_of(a, b)
    }

    fn plus(&self, a: Double, b: Double) -> (answer: Double) {
        let r = &self.reals;
        r.plus(a, b)
    }

    open spec fn over_of(&self, a: Double, b: Double) -> Double {
        let r = &self.reals;
        r.over_of(a, b)
    }

    fn over(&self, a: Double, b: Double) -> (answer: Double) {
        let r = &self.reals;
        r.over(a, b)
    }

    open spec fn minus_of(&self, a: Double, b: Double) -> Double {
        let r = &self.reals;
        r.minus_of(a, b)
    }

    fn minus(&self, a: Double, b: Double) -> (answer: Double) {
        let r = &self.reals;
        r.minus(a, b)
    }

    open spec fn gap_of(&self, a: Double, b: Double) -> Double {
        let r = &self.reals;
        r.over_of(r.minus_of(a, b).unsigned(), b)
    }

    fn gap(&self, a: Double, b: Double) -> (answer: Double) {
        let r = &self.reals;
        r.over(r.minus(a, b).abs(), b)
    }

    open spec fn walk_of(&self, a: Single, b: Single) -> Double {
        let r = &self.reals;
        r.ln_of(r.over_of(r.widen_of(a), r.widen_of(b))).unsigned()
    }

    fn walk(&self, a: Single, b: Single) -> (answer: Double) {
        let r = &self.reals;
        r.ln(r.over(r.widen(a), r.widen(b))).abs()
    }

    open spec fn detune_of(&self, f: Single, sample_rate: Single, fft_len: usize, bin: usize) -> Double {
        let r = &self.reals;
        let centre = r.over_single_of(r.times_single_of(r.count_single_of(bin), sample_rate), r.count_single_of(fft_len));
        r.widen_of(r.minus_single_of(f, centre).unsigned())
    }

    fn detune(&self, f: Single, sample_rate: Single, fft_len: usize, bin: usize) -> (answer: Double) {
        let r = &self.reals;
        let centre = r.over_single(r.times_single(r.count_single(bin), sample_rate), r.count_single(fft_len));
        r.widen(r.minus_single(f, centre).abs())
    }

    open spec fn whole_of(&self, n: u64) -> Double {
        let r = &self.reals;
        r.long_of(n as i128)
    }

    fn whole(&self, n: u64) -> (answer: Double) {
        let r = &self.reals;
        r.long(n as i128)
    }

    open spec fn square_over_of(&self, rho: Single, max: Single) -> bool {
        let r = &self.reals;
        max.less(r.times_single_of(rho, rho))
    }

    fn square_over(&self, rho: Single, max: Single) -> (answer: bool) {
        let r = &self.reals;
        max.lt(r.times_single(rho, rho))
    }

    open spec fn fraction_of(&self, k: usize, n: usize) -> Double {
        let r = &self.reals;
        r.over_of(r.count_of(k), r.count_of(n))
    }

    fn fraction(&self, k: usize, n: usize) -> (answer: Double) {
        let r = &self.reals;
        r.over(r.count(k), r.count(n))
    }

    open spec fn reaches_of(&self, initial: Double, residual: Double, target_db: Single) -> bool {
        let snr = choose|answer: Single| call_ensures(self.snr, (initial, residual), answer);
        target_db.at_most(snr)
    }

    fn reaches(&self, initial: Double, residual: Double, target_db: Single) -> (answer: bool) {
        target_db.le((self.snr)(initial, residual))
    }

    open spec fn snr_of(&self, initial: Double, residual: Double) -> Single {
        choose|answer: Single| call_ensures(self.snr, (initial, residual), answer)
    }

    fn snr(&self, initial: Double, residual: Double) -> (answer: Single) {
        (self.snr)(initial, residual)
    }

}

// ---------------------------------------------------------------------------------------------
// what the figures stand for
// ---------------------------------------------------------------------------------------------

/// The sum of some numbers.
pub open spec fn sum(xs: Seq<Double>) -> real
    decreases xs.len(),
{
    if xs.len() == 0 {
        0real
    } else {
        sum(xs.drop_last()) + xs.last().value()
    }
}

proof fn lemma_total_is_the_sum<R: Reals>(r: &R, xs: Seq<Double>, limit: real, err: real)
    requires
        steady(r, limit, err),
        0real <= err,
        forall|i: int| 0 <= i < xs.len() ==> (#[trigger] xs[i]).finite(),
        forall|i: int|
            0 <= i <= xs.len() ==> size(sum(#[trigger] xs.take(i))) + xs.len() as real * err <= limit,
    ensures
        near(total(r, xs), sum(xs), xs.len() as real * err),
    decreases xs.len(),
{
    let n = xs.len() as int;
    if n == 0 {
        lemma_small_numbers();
        lemma_mirrored(Double { bits: 0 });
        assert((Double { bits: 0 }).mirrored() == Double { bits: 0x8000_0000_0000_0000 });
        lemma_one_more(0, err);
        assert(1int as real * err == err) by (nonlinear_arith);
    } else {
        let front = xs.drop_last();
        lemma_one_more(n - 1, err);
        assert forall|i: int| 0 <= i <= front.len() implies size(sum(#[trigger] front.take(i)))
            + front.len() as real * err <= limit by {
            assert(front.take(i) =~= xs.take(i));
        }
        assert forall|i: int| 0 <= i < front.len() implies (#[trigger] front[i]).finite() by {
            assert(front[i] == xs[i]);
        }
        lemma_total_is_the_sum(r, front, limit, err);
        assert(xs.take(n) =~= xs);
        assert(size(sum(xs.take(n))) + n as real * err <= limit);
        assert(xs.last() == xs[n - 1]);
    }
}

/// A mean is the sum of the numbers, to within the machine's errors, over how many they are.
pub proof fn law_a_mean_is_the_sum_over_the_count<R, Render, Decibels, Snr>(
    calc: &Figures<R, Render, Decibels, Snr>,
    xs: Seq<Double>,
    limit: real,
    err: real,
) where
    R: Reals,
    Render: Fn(Shape) -> Result<usize, FofError>,
    Decibels: Fn(Single) -> Double,
    Snr: Fn(Double, Double) -> Single,

    requires
        rounds(&calc.reals),
        steady(&calc.reals, limit, err),
        0real <= err,
        1 <= xs.len() <= usize::MAX,
        forall|i: int| 0 <= i < xs.len() ==> (#[trigger] xs[i]).finite(),
        forall|i: int|
            0 <= i <= xs.len() ==> size(sum(#[trigger] xs.take(i))) + xs.len() as real * err <= limit,
    ensures
        exists|t: real, n: real|
            {
                &&& #[trigger] close(n, xs.len() as real, 1)
                &&& #[trigger] within(t, sum(xs), xs.len() as real * err)
                &&& gives(calc.mean_of(xs), t / n)
            },
{
    let r = &calc.reals;
    let count = xs.len() as usize;
    lemma_total_is_the_sum(r, xs, limit, err);
    lemma_counts(r, count);
    let n = r.count_of(count).value();
    lemma_close_sign(n, xs.len() as real, 1);
    let t = total(r, xs).value();
    assert(close(n, xs.len() as real, 1) && within(t, sum(xs), xs.len() as real * err));
    assert(gives(calc.mean_of(xs), t / n));
}

/// The edges of a histogram's bins are evenly spaced: edge `i` of `bins` is `i / bins` of the way from
/// the low end to the high.
pub proof fn law_bins_are_even<R, Render, Decibels, Snr>(
    calc: &Figures<R, Render, Decibels, Snr>,
    lo: Double,
    hi: Double,
    i: usize,
    bins: usize,
) where
    R: Reals,
    Render: Fn(Shape) -> Result<usize, FofError>,
    Decibels: Fn(Single) -> Double,
    Snr: Fn(Double, Double) -> Single,

    requires
        rounds(&calc.reals),
        lo.finite() && hi.finite(),
        1 <= i <= bins,
        tame(hi.value() - lo.value()),
        tame((hi.value() - lo.value()) * i as real),
        tame((hi.value() - lo.value()) * i as real / bins as real),
    ensures
        exists|w: real|
            {
                &&& #[trigger] close(
                    w,
                    (hi.value() - lo.value()) * i as real / bins as real,
                    10,
                )
                &&& gives(calc.edge_of(lo, hi, false, i, bins), lo.value() + w)
            },
{
    lemma_part(&calc.reals, lo, hi, i, bins);
}

/// A share of the way from one number to another.
proof fn lemma_part<R: Reals>(r: &R, lo: Double, hi: Double, i: usize, n: usize)
    requires
        rounds(r),
        lo.finite() && hi.finite(),
        1 <= i <= n,
        tame(hi.value() - lo.value()),
        tame((hi.value() - lo.value()) * i as real),
        tame((hi.value() - lo.value()) * i as real / n as real),
    ensures
        ({
            let part = r.over_of(r.times_of(r.minus_of(hi, lo), r.count_of(i)), r.count_of(n));
            &&& part.finite()
            &&& close(part.value(), (hi.value() - lo.value()) * i as real / n as real, 10)
        }),
{
    let d = hi.value() - lo.value();
    let gap = r.minus_of(hi, lo);
    assert(moderate(d));
    assert(gives(gap, d));
    lemma_counts(r, i);
    lemma_counts(r, n);
    lemma_times(r, gap, r.count_of(i), d, i as real, 1, 1);
    let part = r.times_of(gap, r.count_of(i));
    lemma_over(r, part, r.count_of(n), d * i as real, n as real, 5, 1);
}

/// On a logarithmic axis the edges' logarithms are evenly spaced, from the low end's to the high end's.
pub proof fn law_logarithmic_bins_are_even<R, Render, Decibels, Snr>(
    calc: &Figures<R, Render, Decibels, Snr>,
    l: spec_fn(real) -> real,
    e: spec_fn(real) -> real,
    base: real,
    lo: Double,
    hi: Double,
    i: usize,
    bins: usize,
) where
    R: Reals,
    Render: Fn(Shape) -> Result<usize, FofError>,
    Decibels: Fn(Single) -> Double,
    Snr: Fn(Double, Double) -> Single,

    requires
        rounds(&calc.reals),
        is_logarithm(l, base),
        takes_logs(&calc.reals, l),
        exponentiates(&calc.reals, e),
        lo.finite() && hi.finite(),
        tame(lo.value()) && tame(hi.value()),
        1 <= i <= bins,
        ({
            let d = calc.reals.ln_of(hi).value() - calc.reals.ln_of(lo).value();
            &&& tame(d)
            &&& tame(d * i as real)
            &&& tame(d * i as real / bins as real)
        }),
    ensures
        exists|a: real, b: real, w: real|
            {
                &&& #[trigger] close(a, l(lo.value()), 1)
                &&& #[trigger] close(b, l(hi.value()), 1)
                &&& #[trigger] close(w, (b - a) * i as real / bins as real, 10)
                &&& moderate(a + w) ==> exists|x: real| #[trigger] close(x, a + w, 1) && gives(
                    calc.edge_of(lo, hi, true, i, bins),
                    e(x),
                )
            },
{
    let r = &calc.reals;
    lemma_close_to_itself(lo.value(), 9);
    lemma_close_to_itself(hi.value(), 9);
    lemma_least_normal(lo, lo.value());
    lemma_least_normal(hi, hi.value());
    let tiny = Double { bits: 0x0010_0000_0000_0000 };
    lemma_in_order(lo, tiny);
    lemma_in_order(hi, tiny);
    let (p, q) = (lo.larger(tiny), hi.larger(tiny));
    lemma_larger(lo, tiny);
    lemma_larger(hi, tiny);
    assert(p == lo || p.value() == lo.value());
    let (l0, l1) = (r.ln_of(lo), r.ln_of(hi));
    assert(p == lo && q == hi);
    assert(is_log(l0, l(lo.value())) && is_log(l1, l(hi.value())));
    lemma_part(r, l0, l1, i, bins);
    let part = r.over_of(r.times_of(r.minus_of(l1, l0), r.count_of(i)), r.count_of(bins));
    let (a, b, w) = (l0.value(), l1.value(), part.value());
    if moderate(a + w) {
        let x = r.plus_of(l0, part);
        assert(gives(x, a + w));
        assert(close(x.value(), a + w, 1) && gives(calc.edge_of(lo, hi, true, i, bins), e(x.value())));
    }
    assert(close(a, l(lo.value()), 1) && close(b, l(hi.value()), 1));
    assert(close(w, (b - a) * i as real / bins as real, 10));
}

/// A value falls in the bin whose number is the whole part of its distance from the low end, in bins,
/// and in the last where that is past the end.
pub proof fn law_a_value_falls_in_its_bin<R, Render, Decibels, Snr>(
    calc: &Figures<R, Render, Decibels, Snr>,
    x: Double,
    span: Axis,
    bins: usize,
) where
    R: Reals,
    Render: Fn(Shape) -> Result<usize, FofError>,
    Decibels: Fn(Single) -> Double,
    Snr: Fn(Double, Double) -> Single,

    requires
        rounds(&calc.reals),
        steps(&calc.reals),
        !span.log,
        x.finite() && span.lo.finite() && span.hi.finite(),
        1 <= bins,
        tame(x.value() - span.lo.value()),
        tame(span.hi.value() - span.lo.value()),
        tame((x.value() - span.lo.value()) / (span.hi.value() - span.lo.value())),
        tame((x.value() - span.lo.value()) / (span.hi.value() - span.lo.value()) * bins as real),
        2real * ((x.value() - span.lo.value()) / (span.hi.value() - span.lo.value()) * bins as real)
            <= 1_000_000_000real,
    ensures
        exists|u: real, k: int|
            {
                &&& #[trigger] close(
                    u,
                    (x.value() - span.lo.value()) / (span.hi.value() - span.lo.value()) * bins as real,
                    11,
                )
                &&& #[trigger] is_whole_part(k, u)
                &&& calc.slot_of(x, span, bins) == if k < bins {
                    k
                } else {
                    bins - 1
                }
            },
{
    let r = &calc.reals;
    let (d, w) = (x.value() - span.lo.value(), span.hi.value() - span.lo.value());
    let (a, b) = (r.minus_of(x, span.lo), r.minus_of(span.hi, span.lo));
    assert(moderate(d) && moderate(w));
    assert(gives(a, d) && gives(b, w));
    lemma_over(r, a, b, d, w, 1, 1);
    let q = r.over_of(a, b);
    lemma_counts(r, bins);
    lemma_times(r, q, r.count_of(bins), d / w, bins as real, 6, 1);
    let u = r.times_of(q, r.count_of(bins));
    lemma_close_looser(u.value(), d / w * bins as real, 10, 11);
    lemma_close_sign(u.value(), d / w * bins as real, 11);
    let k = r.whole_of(u) as int;
    assert(is_whole_part(k, u.value()));
}

/// A relative gap is the distance between two numbers over the second.
pub proof fn law_a_gap_is_relative_to_the_second<R, Render, Decibels, Snr>(
    calc: &Figures<R, Render, Decibels, Snr>,
    a: Double,
    b: Double,
) where
    R: Reals,
    Render: Fn(Shape) -> Result<usize, FofError>,
    Decibels: Fn(Single) -> Double,
    Snr: Fn(Double, Double) -> Single,

    requires
        rounds(&calc.reals),
        a.finite() && b.finite(),
        0real < b.value(),
        tame(size(a.value() - b.value())),
        tame(size(a.value() - b.value()) / b.value()),
    ensures
        calc.gap_of(a, b).finite(),
        close(calc.gap_of(a, b).value(), size(a.value() - b.value()) / b.value(), 5),
{
    let r = &calc.reals;
    let d = a.value() - b.value();
    let m = r.minus_of(a, b);
    assert(moderate(d));
    assert(gives(m, d));
    lemma_unsigned(m);
    lemma_close_sign(m.value(), d, 1);
    lemma_close_mirrored(m.value(), d, 1);
    lemma_close_sign(-m.value(), -d, 1);
    lemma_close_to_itself(b.value(), 0);
    lemma_over(r, m.unsigned(), b, size(d), b.value(), 1, 0);
}

/// How far one value has walked from another is the size of the logarithm of their ratio: as far for a
/// half as for a double.
pub proof fn law_a_walk_is_a_ratios_logarithm<R, Render, Decibels, Snr>(
    calc: &Figures<R, Render, Decibels, Snr>,
    l: spec_fn(real) -> real,
    base: real,
    a: Single,
    b: Single,
) where
    R: Reals,
    Render: Fn(Shape) -> Result<usize, FofError>,
    Decibels: Fn(Single) -> Double,
    Snr: Fn(Double, Double) -> Single,

    requires
        rounds(&calc.reals),
        is_logarithm(l, base),
        takes_logs(&calc.reals, l),
        a.finite() && b.finite(),
        0real < a.value() && 0real < b.value(),
        tame(a.value() / b.value()),
    ensures
        calc.walk_of(a, b).finite(),
        exists|q: real| #[trigger]
            close(q, a.value() / b.value(), 4) && close(calc.walk_of(a, b).value(), size(l(q)), 1),
{
    let r = &calc.reals;
    lemma_close_to_itself(a.value(), 0);
    lemma_close_to_itself(b.value(), 0);
    lemma_over(r, r.widen_of(a), r.widen_of(b), a.value(), b.value(), 0, 0);
    let q = r.over_of(r.widen_of(a), r.widen_of(b));
    lemma_close_sign(q.value(), a.value() / b.value(), 4);
    let log = r.ln_of(q);
    let y = l(q.value());
    assert(is_log(log, y));
    lemma_unsigned(log);
    lemma_close_sign(log.value(), y, 1);
    lemma_close_mirrored(log.value(), y, 1);
    lemma_close_sign(-log.value(), -y, 1);
    assert(close(q.value(), a.value() / b.value(), 4));
}

/// A carrier's detuning is its distance from its bin's share of the sample rate.
pub proof fn law_detuning_is_from_the_bins_centre<R, Render, Decibels, Snr>(
    calc: &Figures<R, Render, Decibels, Snr>,
    f: Single,
    sample_rate: Single,
    fft_len: usize,
    bin: usize,
) where
    R: Reals,
    Render: Fn(Shape) -> Result<usize, FofError>,
    Decibels: Fn(Single) -> Double,
    Snr: Fn(Double, Double) -> Single,

    requires
        rounds(&calc.reals),
        f.finite() && sample_rate.finite(),
        0real < sample_rate.value(),
        1 <= bin,
        1 <= fft_len,
        tame(bin as real * sample_rate.value()),
        tame(bin as real * sample_rate.value() / fft_len as real),
    ensures
        exists|centre: real|
            {
                &&& #[trigger] close(
                    centre,
                    bin as real * sample_rate.value() / fft_len as real,
                    9,
                )
                &&& moderate(f.value() - centre) ==> calc.detune_of(f, sample_rate, fft_len, bin).finite()
                    && close(
                    calc.detune_of(f, sample_rate, fft_len, bin).value(),
                    size(f.value() - centre),
                    1,
                )
            },
{
    let r = &calc.reals;
    let whole = bin as real * sample_rate.value();
    lemma_counts(r, bin);
    lemma_counts(r, fft_len);
    lemma_close_to_itself(sample_rate.value(), 0);
    lemma_times_single(r, r.count_single_of(bin), sample_rate, bin as real, sample_rate.value(), 1, 0);
    let top = r.times_single_of(r.count_single_of(bin), sample_rate);
    lemma_over_single(r, top, r.count_single_of(fft_len), whole, fft_len as real, 4, 1);
    let centre = r.over_single_of(top, r.count_single_of(fft_len));
    let d = f.value() - centre.value();
    if moderate(d) {
        let m = r.minus_single_of(f, centre);
        assert(gives_single(m, d));
        lemma_unsigned_single(m);
        lemma_close_sign(m.value(), d, 1);
        lemma_close_mirrored(m.value(), d, 1);
        lemma_close_sign(-m.value(), -d, 1);
    }
    assert(close(centre.value(), whole / fft_len as real, 9));
}

/// A fraction is its part over its whole.
pub proof fn law_a_fraction_is_a_part_of_its_whole<R, Render, Decibels, Snr>(
    calc: &Figures<R, Render, Decibels, Snr>,
    k: usize,
    n: usize,
) where
    R: Reals,
    Render: Fn(Shape) -> Result<usize, FofError>,
    Decibels: Fn(Single) -> Double,
    Snr: Fn(Double, Double) -> Single,

    requires
        rounds(&calc.reals),
        1 <= k,
        1 <= n,
        tame(k as real / n as real),
    ensures
        calc.fraction_of(k, n).finite(),
        close(calc.fraction_of(k, n).value(), k as real / n as real, 6),
{
    let r = &calc.reals;
    lemma_counts(r, k);
    lemma_counts(r, n);
    lemma_over(r, r.count_of(k), r.count_of(n), k as real, n as real, 1, 1);
}

} // verus!
