//! What a decimation filter is designed for.
//!
//! The design is a handful of formulas over the sample rate and the highest frequency to be kept. What
//! each is of those, in hertz and in samples, is stated here.

use crate::decimate::{cutoff_at, designed, edges_at, half_for, raw_tap_of, tap_sum, up, usable, Decimator};
use crate::ieee::Double;
use crate::reals::Reals;
use crate::rounding::{
    close, gives, gives_single, lemma_circle_constants, lemma_close_looser, lemma_close_sign,
    lemma_close_to_itself, lemma_counts, lemma_double_above_one, lemma_in_order, lemma_minus,
    lemma_over, lemma_plus, lemma_small_numbers, lemma_times, lemma_within_a_millionth, moderate,
    ordinary, rounds, tame,
};
use vstd::prelude::*;

verus! {

proof fn lemma_design_constants()
    ensures
        (Double { bits: 0x4062_c000_0000_0000 }).finite(),
        (Double { bits: 0x4062_c000_0000_0000 }).value() == 150real,
        (Double { bits: 0x4089_0000_0000_0000 }).finite(),
        (Double { bits: 0x4089_0000_0000_0000 }).value() == 800real,
        (Double { bits: 0x4054_8000_0000_0000 }).finite(),
        (Double { bits: 0x4054_8000_0000_0000 }).value() == 82real,
        (Double { bits: 0x4002_47ae_147a_e148 }).finite(),
        close((Double { bits: 0x4002_47ae_147a_e148 }).value(), 2_285real / 1_000real, 1),
{
    vstd::arithmetic::power2::lemma2_to64();
    lemma_double_above_one(Double { bits: 0x4062_c000_0000_0000 }, 7, 0x2_c000_0000_0000);
    lemma_double_above_one(Double { bits: 0x4089_0000_0000_0000 }, 9, 0x9_0000_0000_0000);
    lemma_double_above_one(Double { bits: 0x4054_8000_0000_0000 }, 6, 0x4_8000_0000_0000);
    lemma_double_above_one(Double { bits: 0x4002_47ae_147a_e148 }, 1, 0x2_47ae_147a_e148);
    lemma_within_a_millionth((Double { bits: 0x4002_47ae_147a_e148 }).value(), 2_285real / 1_000real);
}

/// The passband ends 150 Hz above the highest frequency to be kept, and the stopband begins 150 Hz below
/// the lowest that would fold onto it: the decimated rate less that frequency.
pub proof fn law_the_stopband_starts_below_the_first_alias<R: Reals>(
    r: &R,
    fs: Double,
    f_max: Double,
    factor: usize,
)
    requires
        rounds(r),
        fs.finite() && f_max.finite(),
        ordinary(fs.value()) && ordinary(f_max.value()),
        1 <= factor,
        tame(fs.value() / factor as real),
    ensures
        edges_at(r, fs, f_max, factor).0.finite(),
        close(edges_at(r, fs, f_max, factor).0.value(), f_max.value() + 150real, 2),
        exists|rate: real|
            {
                &&& #[trigger] close(rate, fs.value() / factor as real, 5)
                &&& moderate(rate - f_max.value()) ==> exists|alias: real| #[trigger]
                    close(alias, rate - f_max.value(), 1) && gives(
                        edges_at(r, fs, f_max, factor).1,
                        alias - 150real,
                    )
            },
{
    lemma_design_constants();
    let margin = Double { bits: 0x4062_c000_0000_0000 };
    lemma_close_to_itself(f_max.value(), 0);
    lemma_close_to_itself(150real, 0);
    lemma_close_to_itself(fs.value(), 0);
    lemma_plus(r, f_max, margin, f_max.value(), 150real, 0);
    lemma_counts(r, factor);
    lemma_over(r, fs, r.count_of(factor), fs.value(), factor as real, 0, 1);
    let q = r.over_of(fs, r.count_of(factor));
    let rate = q.value();
    if moderate(rate - f_max.value()) {
        let d = r.minus_of(q, f_max);
        assert(gives(d, rate - f_max.value()));
        assert(close(d.value(), rate - f_max.value(), 1));
        assert(gives(r.minus_of(d, margin), d.value() - 150real));
    }
    assert(close(rate, fs.value() / factor as real, 5));
}

/// A factor is usable where 800 Hz or more lie between the bands.
pub proof fn law_a_usable_factor_leaves_a_transition<R: Reals>(
    r: &R,
    fs: Double,
    f_max: Double,
    factor: usize,
)
    requires
        rounds(r),
        edges_at(r, fs, f_max, factor).0.finite() && edges_at(r, fs, f_max, factor).1.finite(),
        moderate(
            edges_at(r, fs, f_max, factor).1.value() - edges_at(r, fs, f_max, factor).0.value(),
        ),
    ensures
        exists|width: real|
            {
                &&& #[trigger] close(
                    width,
                    edges_at(r, fs, f_max, factor).1.value() - edges_at(r, fs, f_max, factor).0.value(),
                    1,
                )
                &&& usable(r, fs, f_max, factor) <==> 800real <= width
            },
{
    lemma_design_constants();
    let (f_pass, f_stop) = edges_at(r, fs, f_max, factor);
    let w = r.minus_of(f_stop, f_pass);
    assert(gives(w, f_stop.value() - f_pass.value()));
    lemma_in_order(Double { bits: 0x4089_0000_0000_0000 }, w);
    assert(close(w.value(), f_stop.value() - f_pass.value(), 1));
}

/// The cutoff is midway between the bands, in cycles a sample.
pub proof fn law_the_cutoff_is_midway<R: Reals>(r: &R, fs: Double, f_pass: Double, f_stop: Double)
    requires
        rounds(r),
        fs.finite() && f_pass.finite() && f_stop.finite(),
        0real < fs.value(),
        0real < f_pass.value() && 0real < f_stop.value(),
        tame(f_pass.value() + f_stop.value()),
        tame((f_pass.value() + f_stop.value()) / 2real),
        tame((f_pass.value() + f_stop.value()) / 2real / fs.value()),
    ensures
        cutoff_at(r, fs, f_pass, f_stop).finite(),
        close(
            cutoff_at(r, fs, f_pass, f_stop).value(),
            (f_pass.value() + f_stop.value()) / 2real / fs.value(),
            10,
        ),
{
    lemma_small_numbers();
    let two = Double { bits: 0x4000_0000_0000_0000 };
    let s = f_pass.value() + f_stop.value();
    lemma_close_to_itself(f_pass.value(), 0);
    lemma_close_to_itself(f_stop.value(), 0);
    lemma_close_to_itself(2real, 0);
    lemma_close_to_itself(fs.value(), 0);
    lemma_plus(r, f_pass, f_stop, f_pass.value(), f_stop.value(), 0);
    let sum = r.plus_of(f_pass, f_stop);
    lemma_over(r, sum, two, s, 2real, 2, 0);
    lemma_over(r, r.over_of(sum, two), fs, s / 2real, fs.value(), 6, 0);
}

/// The machine's steps up are to whole numbers.
pub open spec fn steps_up<R: Reals>(r: &R) -> bool {
    forall|x: Double|
        x.finite() && 0real <= x.value() <= 1_000_000_000real ==> {
            let n = #[trigger] r.whole_of(r.ceil_of(x));
            x.value() <= n as real && (n as real) < x.value() + 1real
        }
}

/// A filter is as long as Kaiser's formula asks for 90 dB: `82 / (2.285 w)` samples, with `w` the width of
/// the transition in radians a sample, and half of it to each side.
pub proof fn law_a_filter_is_as_long_as_its_transition_asks<R: Reals>(
    r: &R,
    fs: Double,
    f_pass: Double,
    f_stop: Double,
)
    requires
        rounds(r),
        steps_up(r),
        fs.finite() && f_pass.finite() && f_stop.finite(),
        0real < fs.value(),
        tame(f_stop.value() - f_pass.value()),
        tame(6_283_185real / 1_000_000real * (f_stop.value() - f_pass.value())),
        tame(6_283_185real / 1_000_000real * (f_stop.value() - f_pass.value()) / fs.value()),
        tame(
            2_285real / 1_000real * (6_283_185real / 1_000_000real * (f_stop.value() - f_pass.value())
                / fs.value()),
        ),
        tame(
            82real / (2_285real / 1_000real * (6_283_185real / 1_000_000real * (f_stop.value()
                - f_pass.value()) / fs.value())),
        ),
        2real * (82real / (2_285real / 1_000real * (6_283_185real / 1_000_000real * (f_stop.value()
            - f_pass.value()) / fs.value()))) <= 1_000_000_000real,
    ensures
        exists|x: real, n: int|
            {
                &&& #[trigger] close(
                    x,
                    82real / (2_285real / 1_000real * (6_283_185real / 1_000_000real * (f_stop.value()
                        - f_pass.value()) / fs.value())),
                    20,
                )
                &&& #[trigger] is_next_whole(n, x)
                &&& half_for(r, fs, f_pass, f_stop) == up(n, 2)
            },
{
    lemma_design_constants();
    lemma_circle_constants();
    let d = f_stop.value() - f_pass.value();
    let tau = 6_283_185real / 1_000_000real;
    lemma_minus(r, f_stop, f_pass);
    lemma_close_to_itself(fs.value(), 0);
    lemma_close_to_itself(82real, 0);
    let circle = Double { bits: 0x4019_21fb_5444_2d18 };
    let gap = r.minus_of(f_stop, f_pass);
    lemma_times(r, circle, gap, tau, d, 1, 1);
    let turned = r.times_of(circle, gap);
    lemma_over(r, turned, fs, tau * d, fs.value(), 5, 0);
    let width = r.over_of(turned, fs);
    let c = Double { bits: 0x4002_47ae_147a_e148 };
    lemma_times(r, c, width, 2_285real / 1_000real, tau * d / fs.value(), 1, 9);
    let under = r.times_of(c, width);
    let ideal = 2_285real / 1_000real * (tau * d / fs.value());
    lemma_over(r, Double { bits: 0x4054_8000_0000_0000 }, under, 82real, ideal, 0, 13);
    let x = r.over_of(Double { bits: 0x4054_8000_0000_0000 }, under);
    lemma_close_looser(x.value(), 82real / ideal, 17, 20);
    lemma_close_sign(x.value(), 82real / ideal, 20);
    let n = r.whole_of(r.ceil_of(x)) as int;
    assert(is_next_whole(n, x.value()));
    assert(close(x.value(), 82real / ideal, 20));
}

/// `n` is the first whole number that is not below `x`.
pub open spec fn is_next_whole(n: int, x: real) -> bool {
    x <= n as real && (n as real) < x + 1real
}

/// Each tap is its share of the taps' sum.
pub proof fn law_a_tap_is_its_share_of_the_sum<R: Reals>(
    r: &R,
    fs: Double,
    f_max: Double,
    factor: usize,
    d: Decimator,
    j: int,
)
    requires
        rounds(r),
        designed(r, fs, f_max, factor, d),
        0 <= j < d.taps@.len(),
        ({
            let cutoff = cutoff_at(r, fs, d.f_pass, d.f_stop);
            let raw = raw_tap_of(r, cutoff, d.half, j as usize);
            let sum = tap_sum(r, cutoff, d.half, d.taps@.len() as int);
            &&& raw.finite() && sum.finite() && sum.value() != 0real
            &&& moderate(raw.value() / sum.value())
        }),
    ensures
        ({
            let cutoff = cutoff_at(r, fs, d.f_pass, d.f_stop);
            let raw = raw_tap_of(r, cutoff, d.half, j as usize);
            let sum = tap_sum(r, cutoff, d.half, d.taps@.len() as int);
            exists|q: real| #[trigger]
                close(q, raw.value() / sum.value(), 1) && gives_single(d.taps@[j], q)
        }),
{
    let cutoff = cutoff_at(r, fs, d.f_pass, d.f_stop);
    let raw = raw_tap_of(r, cutoff, d.half, j as usize);
    let sum = tap_sum(r, cutoff, d.half, d.taps@.len() as int);
    let q = r.over_of(raw, sum);
    assert(gives(q, raw.value() / sum.value()));
    assert(d.taps@[j] == r.narrow_of(q));
    assert(close(q.value(), raw.value() / sum.value(), 1) && gives_single(d.taps@[j], q.value()));
}

} // verus!
