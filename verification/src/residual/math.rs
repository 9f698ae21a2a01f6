//! The floating-point arithmetic the residual analyser asks for.
//!
//! The analyser decides what runs on what and where the result goes; the formulas are here, over
//! elementary arithmetic.

use crate::ieee::{Double, Single};
use crate::reals::Reals;
use crate::residual::erb::{
    erb_bandwidth_hz, erb_bandwidth_hz_of, erb_rate, erb_rate_of, erb_rate_to_hz, erb_rate_to_hz_of,
};
use crate::rounding::{
    apart, close, exponentiates, gives, is_exponential, lemma_close_inverse, lemma_close_looser,
    lemma_close_mirrored, lemma_close_product, lemma_close_sign, lemma_close_through,
    lemma_close_to_itself, lemma_decays, lemma_divides_out, lemma_double_above_one,
    lemma_double_below_one, lemma_exponential_of_zero, lemma_inverse_square, lemma_minus,
    lemma_mirrored, lemma_negative_inverse, lemma_over, lemma_plus, lemma_small_numbers, lemma_times,
    lemma_within_a_millionth, moderate, ordinary, rounds, takes_roots, tame, turns,
};
use vstd::arithmetic::power2::pow2;
use vstd::prelude::*;

verus! {

/// A repeated filter pole.
#[derive(Clone, Copy, Debug, PartialEq, Eq, Structural)]
pub struct Pole {
    /// The decay per sample its radius comes from.
    pub decay: Double,
    pub radius: Double,
    pub re: Double,
    pub im: Double,
}

/// A complex number.
#[derive(Clone, Copy, Debug, PartialEq, Eq, Structural)]
pub struct Complex {
    pub re: Double,
    pub im: Double,
}

/// The arithmetic, one method to a formula.
pub trait BankMath {
    /// The arithmetic is defined everywhere and repeats itself.
    spec fn repeatable(&self) -> bool;

    spec fn bandwidth_of(&self, f: Double) -> Double;

    spec fn centre_of(&self, min: Double, max: Double, b: usize, last: usize) -> Double;

    spec fn limit_of(&self, sample_rate: Double) -> Double;

    spec fn half_of(&self, x: Double) -> Double;

    spec fn over_of(&self, a: Double, b: Double) -> Double;

    spec fn coefficient_of(&self, sample_rate: Double, tau: Double) -> Double;

    spec fn pole_of(&self, center: Double, bandwidth: Double, sample_rate: Double) -> Pole;

    spec fn horizon_of(&self, order: usize, decay: Double) -> Double;

    spec fn samples_of(&self, n: Double) -> usize;

    spec fn advance_of(&self, v: Complex, pole: Pole, s: Complex) -> Complex;

    spec fn twice_of(&self, x: Double) -> Double;

    spec fn square_sum_of(&self, sum: Double, h: Double) -> Double;

    spec fn inverse_root_of(&self, sum: Double) -> Double;

    spec fn times_of(&self, a: Double, b: Double) -> Double;

    spec fn plus_of(&self, a: Double, b: Double) -> Double;

    spec fn detect_of(&self, a: Double, p: Double, y: Double) -> Double;

    spec fn double_of(&self, x: Single) -> Double;

    spec fn single_of(&self, x: Double) -> Single;

    spec fn noise_of(&self, n: u32) -> Single;

    spec fn delay_of(&self, omega: Double) -> Complex;

    spec fn away_of(&self, p: Complex, z: Complex) -> Complex;

    spec fn product_of(&self, a: Complex, b: Complex) -> Complex;

    spec fn inverse_of(&self, a: Complex) -> Complex;

    spec fn sum_of(&self, a: Complex, b: Complex) -> Complex;

    spec fn mirrored_of(&self, x: Double) -> Double;

    spec fn level_of(&self, gain: Double, a: Complex) -> Double;

    spec fn spelled_of(&self, x: Double) -> Seq<char>;

    spec fn spelled_tenths_of(&self, x: Double) -> Seq<char>;

    spec fn spelled_milli_of(&self, x: Double) -> Seq<char>;

    /// The equivalent rectangular bandwidth at `f`, Hz.
    fn bandwidth(&self, f: Double) -> (r: Double)
        requires
            self.repeatable(),
        ensures
            r == self.bandwidth_of(f),
    ;

    /// Band `b` of `0 ..= last` evenly spaced in ERB-rate from `min` to `max`.
    fn centre(&self, min: Double, max: Double, b: usize, last: usize) -> (r: Double)
        requires
            self.repeatable(),
        ensures
            r == self.centre_of(min, max, b, last),
    ;

    /// How close to half the sample rate a band centre may sit.
    fn limit(&self, sample_rate: Double) -> (r: Double)
        requires
            self.repeatable(),
        ensures
            r == self.limit_of(sample_rate),
    ;

    /// `x / 2`.
    fn half(&self, x: Double) -> (r: Double)
        requires
            self.repeatable(),
        ensures
            r == self.half_of(x),
    ;

    /// `a / b`.
    fn over(&self, a: Double, b: Double) -> (r: Double)
        requires
            self.repeatable(),
        ensures
            r == self.over_of(a, b),
    ;

    /// `exp(-1 / (tau * sample_rate))`.
    fn coefficient(&self, sample_rate: Double, tau: Double) -> (r: Double)
        requires
            self.repeatable(),
        ensures
            r == self.coefficient_of(sample_rate, tau),
    ;

    /// The pole of a band.
    fn pole(&self, center: Double, bandwidth: Double, sample_rate: Double) -> (r: Pole)
        requires
            self.repeatable(),
        ensures
            r == self.pole_of(center, bandwidth, sample_rate),
    ;

    /// Samples past which an impulse response is spent.
    fn horizon(&self, order: usize, decay: Double) -> (r: Double)
        requires
            self.repeatable(),
        ensures
            r == self.horizon_of(order, decay),
    ;

    /// A whole count of samples.
    fn samples(&self, n: Double) -> (r: usize)
        requires
            self.repeatable(),
        ensures
            r == self.samples_of(n),
    ;

    /// `v + pole * s`.
    fn advance(&self, v: Complex, pole: Pole, s: Complex) -> (r: Complex)
        requires
            self.repeatable(),
        ensures
            r == self.advance_of(v, pole, s),
    ;

    /// `2 * x`.
    fn twice(&self, x: Double) -> (r: Double)
        requires
            self.repeatable(),
        ensures
            r == self.twice_of(x),
    ;

    /// `sum + h * h`.
    fn square_sum(&self, sum: Double, h: Double) -> (r: Double)
        requires
            self.repeatable(),
        ensures
            r == self.square_sum_of(sum, h),
    ;

    /// `1 / sqrt(sum)`.
    fn inverse_root(&self, sum: Double) -> (r: Double)
        requires
            self.repeatable(),
        ensures
            r == self.inverse_root_of(sum),
    ;

    /// `a * b`.
    fn times(&self, a: Double, b: Double) -> (r: Double)
        requires
            self.repeatable(),
        ensures
            r == self.times_of(a, b),
    ;

    /// `a + b`.
    fn plus(&self, a: Double, b: Double) -> (r: Double)
        requires
            self.repeatable(),
        ensures
            r == self.plus_of(a, b),
    ;

    /// `a * p + (1 - a) * y * y`.
    fn detect(&self, a: Double, p: Double, y: Double) -> (r: Double)
        requires
            self.repeatable(),
        ensures
            r == self.detect_of(a, p, y),
    ;

    /// A single as a double.
    fn double(&self, x: Single) -> (r: Double)
        requires
            self.repeatable(),
        ensures
            r == self.double_of(x),
    ;

    /// A double rounded to a single.
    fn single(&self, x: Double) -> (r: Single)
        requires
            self.repeatable(),
        ensures
            r == self.single_of(x),
    ;

    /// `n / 2^23 - 1`.
    fn noise(&self, n: u32) -> (r: Single)
        requires
            self.repeatable(),
        ensures
            r == self.noise_of(n),
    ;

    /// `exp(-j omega)`: one sample's delay at a frequency.
    fn delay(&self, omega: Double) -> (r: Complex)
        requires
            self.repeatable(),
        ensures
            r == self.delay_of(omega),
    ;

    /// `1 - p z`.
    fn away(&self, p: Complex, z: Complex) -> (r: Complex)
        requires
            self.repeatable(),
        ensures
            r == self.away_of(p, z),
    ;

    /// `a b`.
    fn product(&self, a: Complex, b: Complex) -> (r: Complex)
        requires
            self.repeatable(),
        ensures
            r == self.product_of(a, b),
    ;

    /// `1 / a`.
    fn inverse(&self, a: Complex) -> (r: Complex)
        requires
            self.repeatable(),
        ensures
            r == self.inverse_of(a),
    ;

    /// `a + b`.
    fn sum(&self, a: Complex, b: Complex) -> (r: Complex)
        requires
            self.repeatable(),
        ensures
            r == self.sum_of(a, b),
    ;

    /// `-x`.
    fn mirrored(&self, x: Double) -> (r: Double)
        requires
            self.repeatable(),
        ensures
            r == self.mirrored_of(x),
    ;

    /// `gain |a|`.
    fn level(&self, gain: Double, a: Complex) -> (r: Double)
        requires
            self.repeatable(),
        ensures
            r == self.level_of(gain, a),
    ;

    /// A number in decimal.
    fn spelled(&self, x: Double) -> (r: String)
        requires
            self.repeatable(),
        ensures
            r@ == self.spelled_of(x),
    ;

    /// A number in decimal, to a tenth.
    fn spelled_tenths(&self, x: Double) -> (r: String)
        requires
            self.repeatable(),
        ensures
            r@ == self.spelled_tenths_of(x),
    ;

    /// A thousand times a number, in decimal.
    fn spelled_milli(&self, x: Double) -> (r: String)
        requires
            self.repeatable(),
        ensures
            r@ == self.spelled_milli_of(x),
    ;

}

/// [`BankMath`] over elementary arithmetic.
pub struct Bands<R> {
    pub reals: R,
}

impl<R: Reals> BankMath for Bands<R> {
    open spec fn repeatable(&self) -> bool {
        self.reals.repeatable()
    }

    open spec fn bandwidth_of(&self, f: Double) -> Double {
        let r = &self.reals;
        erb_bandwidth_hz_of(r, f)
    }

    fn bandwidth(&self, f: Double) -> (answer: Double) {
        let r = &self.reals;
        erb_bandwidth_hz(r, f)
    }

    open spec fn centre_of(&self, min: Double, max: Double, b: usize, last: usize) -> Double {
        let r = &self.reals;
        let lo = erb_rate_of(r, min);
        let hi = erb_rate_of(r, max);
        erb_rate_to_hz_of(
            r,
            r.plus_of(lo, r.over_of(r.times_of(r.minus_of(hi, lo), r.count_of(b)), r.count_of(last))),
        )
    }

    fn centre(&self, min: Double, max: Double, b: usize, last: usize) -> (answer: Double) {
        let r = &self.reals;
        let lo = erb_rate(r, min);
        let hi = erb_rate(r, max);
        erb_rate_to_hz(
            r,
            r.plus(lo, r.over(r.times(r.minus(hi, lo), r.count(b)), r.count(last))),
        )
    }

    open spec fn limit_of(&self, sample_rate: Double) -> Double {
        let r = &self.reals;
        r.over_of(r.times_of((Double { bits: 0x3fef_5c28_f5c2_8f5c }), sample_rate), (Double { bits: 0x4000_0000_0000_0000 }))
    }

    fn limit(&self, sample_rate: Double) -> (answer: Double) {
        let r = &self.reals;
        r.over(r.times((Double { bits: 0x3fef_5c28_f5c2_8f5c }), sample_rate), (Double { bits: 0x4000_0000_0000_0000 }))
    }

    open spec fn half_of(&self, x: Double) -> Double {
        let r = &self.reals;
        r.over_of(x, (Double { bits: 0x4000_0000_0000_0000 }))
    }

    fn half(&self, x: Double) -> (answer: Double) {
        let r = &self.reals;
        r.over(x, (Double { bits: 0x4000_0000_0000_0000 }))
    }

    open spec fn over_of(&self, a: Double, b: Double) -> Double {
        let r = &self.reals;
        r.over_of(a, b)
    }

    fn over(&self, a: Double, b: Double) -> (answer: Double) {
        let r = &self.reals;
        r.over(a, b)
    }

    open spec fn coefficient_of(&self, sample_rate: Double, tau: Double) -> Double {
        let r = &self.reals;
        r.exp_of(r.over_of((Double { bits: 0xbff0_0000_0000_0000 }), r.times_of(tau, sample_rate)))
    }

    fn coefficient(&self, sample_rate: Double, tau: Double) -> (answer: Double) {
        let r = &self.reals;
        r.exp(r.over((Double { bits: 0xbff0_0000_0000_0000 }), r.times(tau, sample_rate)))
    }

    open spec fn pole_of(&self, center: Double, bandwidth: Double, sample_rate: Double) -> Pole {
        let r = &self.reals;
        let decay = r.over_of(r.times_of((Double { bits: 0x4019_9c3a_3767_4374 }), bandwidth), sample_rate);
        let radius = r.exp_of(decay.mirrored());
        let theta = r.over_of(r.times_of((Double { bits: 0x4019_21fb_5444_2d18 }), center), sample_rate);
        Pole {
            decay,
            radius,
            re: r.times_of(radius, r.cosine_of(theta)),
            im: r.times_of(radius, r.sine_of(theta)),
        }
    }

    fn pole(&self, center: Double, bandwidth: Double, sample_rate: Double) -> (answer: Pole) {
        let r = &self.reals;
        let decay = r.over(r.times((Double { bits: 0x4019_9c3a_3767_4374 }), bandwidth), sample_rate);
        let radius = r.exp(decay.negated());
        let theta = r.over(r.times((Double { bits: 0x4019_21fb_5444_2d18 }), center), sample_rate);
        Pole {
            decay,
            radius,
            re: r.times(radius, r.cosine(theta)),
            im: r.times(radius, r.sine(theta)),
        }
    }

    open spec fn horizon_of(&self, order: usize, decay: Double) -> Double {
        let r = &self.reals;
        r.plus_of(
            r.ceil_of(r.over_of(r.plus_of(r.count_of(if order == 0 { 0 } else { (order - 1) as usize }), (Double { bits: 0x4050_0000_0000_0000 })), decay)),
            (Double { bits: 0x4030_0000_0000_0000 }),
        )
    }

    fn horizon(&self, order: usize, decay: Double) -> (answer: Double) {
        let r = &self.reals;
        let poles: usize = if order == 0 {
            0
        } else {
            order - 1
        };
        r.plus(r.ceil(r.over(r.plus(r.count(poles), (Double { bits: 0x4050_0000_0000_0000 })), decay)), (Double { bits: 0x4030_0000_0000_0000 }))
    }

    open spec fn samples_of(&self, n: Double) -> usize {
        let r = &self.reals;
        r.whole_of(n)
    }

    fn samples(&self, n: Double) -> (answer: usize) {
        let r = &self.reals;
        r.whole(n)
    }

    open spec fn advance_of(&self, v: Complex, pole: Pole, s: Complex) -> Complex {
        let r = &self.reals;
        Complex {
            re:
            r.minus_of(r.plus_of(v.re, r.times_of(pole.re, s.re)), r.times_of(pole.im, s.im)),
            im:
            r.plus_of(r.plus_of(v.im, r.times_of(pole.re, s.im)), r.times_of(pole.im, s.re)),
        }
    }

    fn advance(&self, v: Complex, pole: Pole, s: Complex) -> (answer: Complex) {
        let r = &self.reals;
        Complex {
            re:
            r.minus(r.plus(v.re, r.times(pole.re, s.re)), r.times(pole.im, s.im)),
            im:
            r.plus(r.plus(v.im, r.times(pole.re, s.im)), r.times(pole.im, s.re)),
        }
    }

    open spec fn twice_of(&self, x: Double) -> Double {
        let r = &self.reals;
        r.times_of((Double { bits: 0x4000_0000_0000_0000 }), x)
    }

    fn twice(&self, x: Double) -> (answer: Double) {
        let r = &self.reals;
        r.times((Double { bits: 0x4000_0000_0000_0000 }), x)
    }

    open spec fn square_sum_of(&self, sum: Double, h: Double) -> Double {
        let r = &self.reals;
        r.plus_of(sum, r.times_of(h, h))
    }

    fn square_sum(&self, sum: Double, h: Double) -> (answer: Double) {
        let r = &self.reals;
        r.plus(sum, r.times(h, h))
    }

    open spec fn inverse_root_of(&self, sum: Double) -> Double {
        let r = &self.reals;
        r.over_of((Double { bits: 0x3ff0_0000_0000_0000 }), r.root_of(sum))
    }

    fn inverse_root(&self, sum: Double) -> (answer: Double) {
        let r = &self.reals;
        r.over((Double { bits: 0x3ff0_0000_0000_0000 }), r.root(sum))
    }

    open spec fn times_of(&self, a: Double, b: Double) -> Double {
        let r = &self.reals;
        r.times_of(a, b)
    }

    fn times(&self, a: Double, b: Double) -> (answer: Double) {
        let r = &self.reals;
        r.times(a, b)
    }

    open spec fn plus_of(&self, a: Double, b: Double) -> Double {
        let r = &self.reals;
        r.plus_of(a, b)
    }

    fn plus(&self, a: Double, b: Double) -> (answer: Double) {
        let r = &self.reals;
        r.plus(a, b)
    }

    open spec fn detect_of(&self, a: Double, p: Double, y: Double) -> Double {
        let r = &self.reals;
        r.plus_of(r.times_of(a, p), r.times_of(r.times_of(r.minus_of((Double { bits: 0x3ff0_0000_0000_0000 }), a), y), y))
    }

    fn detect(&self, a: Double, p: Double, y: Double) -> (answer: Double) {
        let r = &self.reals;
        r.plus(r.times(a, p), r.times(r.times(r.minus((Double { bits: 0x3ff0_0000_0000_0000 }), a), y), y))
    }

    open spec fn double_of(&self, x: Single) -> Double {
        let r = &self.reals;
        r.widen_of(x)
    }

    fn double(&self, x: Single) -> (answer: Double) {
        let r = &self.reals;
        r.widen(x)
    }

    open spec fn single_of(&self, x: Double) -> Single {
        let r = &self.reals;
        r.narrow_of(x)
    }

    fn single(&self, x: Double) -> (answer: Single) {
        let r = &self.reals;
        r.narrow(x)
    }

    open spec fn noise_of(&self, n: u32) -> Single {
        let r = &self.reals;
        r.minus_single_of(r.over_single_of(r.count_single_of(n as usize), (Single { bits: 0x4b00_0000 })), (Single { bits: 0x3f80_0000 }))
    }

    fn noise(&self, n: u32) -> (answer: Single) {
        let r = &self.reals;
        r.minus_single(r.over_single(r.count_single(n as usize), (Single { bits: 0x4b00_0000 })), (Single { bits: 0x3f80_0000 }))
    }

    open spec fn delay_of(&self, omega: Double) -> Complex {
        let r = &self.reals;
        Complex { re: r.cosine_of(omega), im: r.sine_of(omega).mirrored() }
    }

    fn delay(&self, omega: Double) -> (answer: Complex) {
        let r = &self.reals;
        Complex { re: r.cosine(omega), im: r.sine(omega).negated() }
    }

    open spec fn away_of(&self, p: Complex, z: Complex) -> Complex {
        let r = &self.reals;
        Complex {
            re: r.minus_of((Double { bits: 0x3ff0_0000_0000_0000 }), r.minus_of(r.times_of(p.re, z.re), r.times_of(p.im, z.im))),
            im: r.plus_of(r.times_of(p.re, z.im), r.times_of(p.im, z.re)).mirrored(),
        }
    }

    fn away(&self, p: Complex, z: Complex) -> (answer: Complex) {
        let r = &self.reals;
        Complex {
            re: r.minus((Double { bits: 0x3ff0_0000_0000_0000 }), r.minus(r.times(p.re, z.re), r.times(p.im, z.im))),
            im: r.plus(r.times(p.re, z.im), r.times(p.im, z.re)).negated(),
        }
    }

    open spec fn product_of(&self, a: Complex, b: Complex) -> Complex {
        let r = &self.reals;
        Complex {
            re: r.minus_of(r.times_of(a.re, b.re), r.times_of(a.im, b.im)),
            im: r.plus_of(r.times_of(a.re, b.im), r.times_of(a.im, b.re)),
        }
    }

    fn product(&self, a: Complex, b: Complex) -> (answer: Complex) {
        let r = &self.reals;
        Complex {
            re: r.minus(r.times(a.re, b.re), r.times(a.im, b.im)),
            im: r.plus(r.times(a.re, b.im), r.times(a.im, b.re)),
        }
    }

    open spec fn inverse_of(&self, a: Complex) -> Complex {
        let r = &self.reals;
        let n = r.plus_of(r.times_of(a.re, a.re), r.times_of(a.im, a.im));
        Complex { re: r.over_of(a.re, n), im: r.over_of(a.im.mirrored(), n) }
    }

    fn inverse(&self, a: Complex) -> (answer: Complex) {
        let r = &self.reals;
        let n = r.plus(r.times(a.re, a.re), r.times(a.im, a.im));
        Complex { re: r.over(a.re, n), im: r.over(a.im.negated(), n) }
    }

    open spec fn sum_of(&self, a: Complex, b: Complex) -> Complex {
        let r = &self.reals;
        Complex { re: r.plus_of(a.re, b.re), im: r.plus_of(a.im, b.im) }
    }

    fn sum(&self, a: Complex, b: Complex) -> (answer: Complex) {
        let r = &self.reals;
        Complex { re: r.plus(a.re, b.re), im: r.plus(a.im, b.im) }
    }

    open spec fn mirrored_of(&self, x: Double) -> Double {
        x.mirrored()
    }

    fn mirrored(&self, x: Double) -> (answer: Double) {
        x.negated()
    }

    open spec fn level_of(&self, gain: Double, a: Complex) -> Double {
        let r = &self.reals;
        r.times_of(gain, r.root_of(r.plus_of(r.times_of(a.re, a.re), r.times_of(a.im, a.im))))
    }

    fn level(&self, gain: Double, a: Complex) -> (answer: Double) {
        let r = &self.reals;
        r.times(gain, r.root(r.plus(r.times(a.re, a.re), r.times(a.im, a.im))))
    }

    open spec fn spelled_of(&self, x: Double) -> Seq<char> {
        let r = &self.reals;
        r.plain_of(x)
    }

    fn spelled(&self, x: Double) -> (answer: String) {
        let r = &self.reals;
        r.plain(x)
    }

    open spec fn spelled_tenths_of(&self, x: Double) -> Seq<char> {
        let r = &self.reals;
        r.fixed_of(x, 1)
    }

    fn spelled_tenths(&self, x: Double) -> (answer: String) {
        let r = &self.reals;
        r.fixed(x, 1)
    }

    open spec fn spelled_milli_of(&self, x: Double) -> Seq<char> {
        let r = &self.reals;
        r.plain_of(r.times_of(x, (Double { bits: 0x408f_4000_0000_0000 })))
    }

    fn spelled_milli(&self, x: Double) -> (answer: String) {
        let r = &self.reals;
        r.plain(r.times(x, (Double { bits: 0x408f_4000_0000_0000 })))
    }

}

/// A detector's level falls by `e` in `tau` seconds at every sample rate: its coefficient is the
/// exponential of one sample's share, `1 / (tau * sample_rate)`, of that.
pub proof fn law_a_detector_forgets_in_tau<R: Reals>(
    bank: &Bands<R>,
    e: spec_fn(real) -> real,
    sample_rate: Double,
    tau: Double,
)
    requires
        rounds(&bank.reals),
        is_exponential(e),
        exponentiates(&bank.reals, e),
        sample_rate.finite(),
        tau.finite(),
        0real < sample_rate.value(),
        0real < tau.value(),
        tame(tau.value() * sample_rate.value()),
        tame(1real / (tau.value() * sample_rate.value())),
        moderate(e(-2real / (tau.value() * sample_rate.value()))),
    ensures
        bank.coefficient_of(sample_rate, tau).finite(),
        exists|x: real|
            {
                &&& #[trigger] close(x, 1real / (tau.value() * sample_rate.value()), 8)
                &&& close(bank.coefficient_of(sample_rate, tau).value(), e(-x), 1)
            },
{
    let r = &bank.reals;
    let samples = tau.value() * sample_rate.value();
    let held = r.times_of(tau, sample_rate);
    lemma_close_to_itself(tau.value(), 0);
    lemma_close_to_itself(sample_rate.value(), 0);
    lemma_times(r, tau, sample_rate, tau.value(), sample_rate.value(), 0, 0);
    lemma_small_numbers();
    let minus = Double { bits: 0xbff0_0000_0000_0000 };
    let y = held.value();
    lemma_close_inverse(y, samples, 3);
    let share = r.over_of(minus, held);
    lemma_negative_inverse(y);
    lemma_negative_inverse(samples);
    assert(moderate(-1real / y)) by {
        lemma_close_sign(1real / y, 1real / samples, 4);
    }
    assert(gives(share, minus.value() / held.value()));
    let x = -share.value();
    lemma_close_mirrored(share.value(), -1real / y, 1);
    lemma_close_through(x, 1real / y, 1real / samples, 1, 4);
    lemma_close_looser(x, 1real / samples, 6, 8);
    lemma_close_sign(x, 1real / samples, 6);
    assert(-2real / samples == -(2real * (1real / samples)));
    lemma_exponential_of_zero(e);
    assert(e(-2real / samples) < e(share.value()) && e(share.value()) < e(0real));
    assert(moderate(e(share.value())));
    assert(-x == share.value());
    assert(gives(r.exp_of(share), e(share.value())));
}

/// The constants of the filters.
proof fn lemma_filter_constants()
    ensures
        (Double { bits: 0x4019_9c3a_3767_4374 }).finite(),
        close((Double { bits: 0x4019_9c3a_3767_4374 }).value(), 6_402_565real / 1_000_000real, 1),
        (Double { bits: 0x4019_21fb_5444_2d18 }).finite(),
        close((Double { bits: 0x4019_21fb_5444_2d18 }).value(), 6_283_185real / 1_000_000real, 1),
        (Double { bits: 0x3fef_5c28_f5c2_8f5c }).finite(),
        close((Double { bits: 0x3fef_5c28_f5c2_8f5c }).value(), 98real / 100real, 1),
{
    vstd::arithmetic::power2::lemma2_to64();
    lemma_double_above_one(Double { bits: 0x4019_9c3a_3767_4374 }, 2, 0x9_9c3a_3767_4374);
    lemma_double_above_one(Double { bits: 0x4019_21fb_5444_2d18 }, 2, 0x9_21fb_5444_2d18);
    lemma_double_below_one(Double { bits: 0x3fef_5c28_f5c2_8f5c }, 1, 0xf_5c28_f5c2_8f5c);
    assert(0x10_0000_0000_0000 * pow2(1) == 0x20_0000_0000_0000);
    assert((0x10_0000_0000_0000 * pow2(1)) as real == 0x20_0000_0000_0000real);
    lemma_within_a_millionth(
        (Double { bits: 0x4019_9c3a_3767_4374 }).value(),
        6_402_565real / 1_000_000real,
    );
    lemma_within_a_millionth(
        (Double { bits: 0x4019_21fb_5444_2d18 }).value(),
        6_283_185real / 1_000_000real,
    );
    lemma_within_a_millionth((Double { bits: 0x3fef_5c28_f5c2_8f5c }).value(), 98real / 100real);
}

/// A band centre may sit up to 98 hundredths of the way to half the sample rate.
pub proof fn law_the_limit_is_under_half_the_rate<R: Reals>(bank: &Bands<R>, sample_rate: Double)
    requires
        rounds(&bank.reals),
        sample_rate.finite(),
        ordinary(sample_rate.value()),
    ensures
        bank.limit_of(sample_rate).finite(),
        close(bank.limit_of(sample_rate).value(), 98real / 100real * sample_rate.value() / 2real, 8),
        bank.half_of(sample_rate).finite(),
        close(bank.half_of(sample_rate).value(), sample_rate.value() / 2real, 4),
{
    let r = &bank.reals;
    let fs = sample_rate.value();
    lemma_filter_constants();
    lemma_small_numbers();
    lemma_close_to_itself(fs, 0);
    lemma_close_to_itself(2real, 0);
    let (share, two) = (Double { bits: 0x3fef_5c28_f5c2_8f5c }, Double { bits: 0x4000_0000_0000_0000 });
    lemma_times(r, share, sample_rate, 98real / 100real, fs, 1, 0);
    lemma_over(r, r.times_of(share, sample_rate), two, 98real / 100real * fs, 2real, 4, 0);
    lemma_over(r, sample_rate, two, fs, 2real, 0, 0);
}

/// A band's pole lies at the angle of its centre, `2 pi center / sample_rate`, and as far in as its
/// bandwidth has it decay: `exp(-2 pi 1.019 bandwidth / sample_rate)`.
pub proof fn law_a_pole_has_its_bands_centre_and_width<R: Reals>(
    bank: &Bands<R>,
    e: spec_fn(real) -> real,
    cosine: spec_fn(real) -> real,
    sine: spec_fn(real) -> real,
    center: Double,
    bandwidth: Double,
    sample_rate: Double,
)
    requires
        rounds(&bank.reals),
        is_exponential(e),
        exponentiates(&bank.reals, e),
        turns(&bank.reals, cosine, sine),
        center.finite() && bandwidth.finite() && sample_rate.finite(),
        ordinary(center.value()),
        ordinary(bandwidth.value()),
        ordinary(sample_rate.value()),
        tame(6_402_565real / 1_000_000real * bandwidth.value() / sample_rate.value()),
        tame(6_283_185real / 1_000_000real * center.value() / sample_rate.value()),
        moderate(
            e(-(2real * (6_402_565real / 1_000_000real * bandwidth.value() / sample_rate.value()))),
        ),
    ensures
        exists|decay: real, theta: real, c: real, s: real|
            {
                let pole = bank.pole_of(center, bandwidth, sample_rate);
                let radius = pole.radius.value();
                &&& #[trigger] close(
                    decay,
                    6_402_565real / 1_000_000real * bandwidth.value() / sample_rate.value(),
                    8,
                )
                &&& #[trigger] close(
                    theta,
                    6_283_185real / 1_000_000real * center.value() / sample_rate.value(),
                    8,
                )
                &&& pole.decay.value() == decay
                &&& pole.radius.finite() && close(radius, e(-decay), 1)
                &&& #[trigger] apart(c, cosine(theta)) && gives(pole.re, radius * c)
                &&& #[trigger] apart(s, sine(theta)) && gives(pole.im, radius * s)
            },
{
    let r = &bank.reals;
    let fs = sample_rate.value();
    lemma_filter_constants();
    lemma_close_to_itself(fs, 0);
    lemma_close_to_itself(bandwidth.value(), 0);
    lemma_close_to_itself(center.value(), 0);
    let (wide, round) = (Double { bits: 0x4019_9c3a_3767_4374 }, Double { bits: 0x4019_21fb_5444_2d18 });
    let (a, b) = (6_402_565real / 1_000_000real, 6_283_185real / 1_000_000real);
    lemma_times(r, wide, bandwidth, a, bandwidth.value(), 1, 0);
    lemma_over(r, r.times_of(wide, bandwidth), sample_rate, a * bandwidth.value(), fs, 4, 0);
    lemma_times(r, round, center, b, center.value(), 1, 0);
    lemma_over(r, r.times_of(round, center), sample_rate, b * center.value(), fs, 4, 0);
    let pole = bank.pole_of(center, bandwidth, sample_rate);
    let theta = r.over_of(r.times_of(round, center), sample_rate);
    lemma_mirrored(pole.decay);
    lemma_decays(r, e, pole.decay.mirrored(), a * bandwidth.value() / fs, 8);
    let (c, s) = (r.cosine_of(theta), r.sine_of(theta));
    assert(apart(c.value(), cosine(theta.value())) && apart(s.value(), sine(theta.value())));
    assert(close(pole.decay.value(), a * bandwidth.value() / fs, 8));
    assert(close(theta.value(), b * center.value() / fs, 8));
}

/// A detector's next level is its last and the power that comes in, mixed: `a` of the one to `1 - a` of
/// the other.
pub proof fn law_a_detector_mixes_old_and_new<R: Reals>(bank: &Bands<R>, a: Double, p: Double, y: Double)
    requires
        rounds(&bank.reals),
        a.finite() && p.finite() && y.finite(),
        0real < a.value() < 1real,
        0real < p.value(),
        0real < y.value(),
        tame(a.value() * p.value()),
        tame(1real - a.value()),
        tame((1real - a.value()) * y.value()),
        tame((1real - a.value()) * y.value() * y.value()),
        tame(a.value() * p.value() + (1real - a.value()) * y.value() * y.value()),
    ensures
        bank.detect_of(a, p, y).finite(),
        close(
            bank.detect_of(a, p, y).value(),
            a.value() * p.value() + (1real - a.value()) * y.value() * y.value(),
            9,
        ),
{
    let r = &bank.reals;
    lemma_small_numbers();
    lemma_close_to_itself(a.value(), 0);
    lemma_close_to_itself(p.value(), 0);
    lemma_close_to_itself(y.value(), 0);
    let one = Double { bits: 0x3ff0_0000_0000_0000 };
    lemma_times(r, a, p, a.value(), p.value(), 0, 0);
    lemma_minus(r, one, a);
    let rest = 1real - a.value();
    let m = r.minus_of(one, a);
    lemma_times(r, m, y, rest, y.value(), 1, 0);
    lemma_times(r, r.times_of(m, y), y, rest * y.value(), y.value(), 4, 0);
    lemma_close_looser(r.times_of(a, p).value(), a.value() * p.value(), 3, 7);
    lemma_plus(
        r,
        r.times_of(a, p),
        r.times_of(r.times_of(m, y), y),
        a.value() * p.value(),
        rest * y.value() * y.value(),
        7,
    );
}

/// A band's gain brings the energy of its impulse response to one.
pub proof fn law_the_gain_normalises<R: Reals>(bank: &Bands<R>, sum: Double)
    requires
        rounds(&bank.reals),
        takes_roots(&bank.reals),
        sum.finite(),
        tame(sum.value()),
        tame(1real / bank.reals.root_of(sum).value()),
    ensures
        ({
            let g = bank.inverse_root_of(sum);
            g.finite() && close(g.value() * g.value() * sum.value(), 1real, 20)
        }),
{
    let r = &bank.reals;
    lemma_small_numbers();
    let one = Double { bits: 0x3ff0_0000_0000_0000 };
    let root = r.root_of(sum);
    let (x, v) = (root.value(), sum.value());
    lemma_close_to_itself(1real, 0);
    lemma_close_to_itself(x, 0);
    lemma_over(r, one, root, 1real, x, 0, 0);
    let g = bank.inverse_root_of(sum).value();
    let i = 1real / x;
    lemma_close_inverse(x, x, 0);
    lemma_close_product(g, g, i, i, 4, 4);
    // i i v is v over the square of the root.
    lemma_close_to_itself(v, 0);
    lemma_inverse_square(x);
    lemma_close_inverse(x * x, v, 3);
    lemma_close_product(i * i, v, 1real / v, v, 4, 0);
    lemma_close_through(g * g, i * i, i * i, 9, 0);
    lemma_divides_out(v);
    lemma_close_product(g * g, v, i * i, v, 10, 0);
    lemma_close_through(g * g * v, i * i * v, 1real, 11, 5);
    lemma_close_looser(g * g * v, 1real, 17, 20);
}

} // verus!
