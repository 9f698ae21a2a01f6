//! The floating-point arithmetic that turns a settings document into settings.

use crate::dict::ReleasePolicy;
use crate::ieee::{Double, Single};
use crate::reals::Reals;
use crate::text::{push_number, written};
use crate::rounding::{
    close, least, lemma_close_looser, lemma_close_most, lemma_close_sign, lemma_close_to_itself, lemma_double_above_one,
    lemma_double_below_one, lemma_larger_single, lemma_over, lemma_over_single, lemma_single_above_one, lemma_times,
    lemma_times_single, lemma_within_a_millionth, most, ordinary, rounds, steps, tame,
};
use vstd::arithmetic::power2::pow2;
use vstd::prelude::*;

verus! {

/// The arithmetic, one method to a formula.
pub trait Units {
    /// The arithmetic is defined everywhere and repeats itself.
    spec fn repeatable(&self) -> bool;

    spec fn seconds_of(&self, ms: Single) -> Single;

    spec fn seconds_double_of(&self, ms: Double) -> Double;

    spec fn widen_of(&self, x: Single) -> Double;

    spec fn product_of(&self, a: Single, b: Single) -> Single;

    spec fn release_of(&self, alpha: Single, policy: ReleasePolicy) -> Single;

    spec fn updates_of(&self, ms: Double, sample_rate: Double) -> Double;

    spec fn whole_of(&self, x: Double) -> usize;

    spec fn samples_of(&self, seconds: Single, sample_rate: Single) -> usize;

    spec fn nearest_sample_of(&self, seconds: Single, sample_rate: Single) -> usize;

    spec fn spelled_of(&self, x: Single) -> Seq<char>;

    spec fn spelled_span_of(&self, samples: usize, sample_rate: Single) -> Seq<char>;

    spec fn spelled_rate_of(&self, sample_rate: Single) -> Seq<char>;

    /// Milliseconds as seconds.
    fn seconds(&self, ms: Single) -> (r: Single)
        requires
            self.repeatable(),
        ensures
            r == self.seconds_of(ms),
    ;

    /// Milliseconds as seconds.
    fn seconds_double(&self, ms: Double) -> (r: Double)
        requires
            self.repeatable(),
        ensures
            r == self.seconds_double_of(ms),
    ;

    /// A single as a double.
    fn widen(&self, x: Single) -> (r: Double)
        requires
            self.repeatable(),
        ensures
            r == self.widen_of(x),
    ;

    /// `a * b`.
    fn product(&self, a: Single, b: Single) -> (r: Single)
        requires
            self.repeatable(),
        ensures
            r == self.product_of(a, b),
    ;

    /// The release duration a policy gives a decay rate.
    fn release(&self, alpha: Single, policy: ReleasePolicy) -> (r: Single)
        requires
            self.repeatable(),
        ensures
            r == self.release_of(alpha, policy),
    ;

    /// Milliseconds in samples, to the nearest whole one.
    fn updates(&self, ms: Double, sample_rate: Double) -> (r: Double)
        requires
            self.repeatable(),
        ensures
            r == self.updates_of(ms, sample_rate),
    ;

    /// A number's whole part.
    fn whole(&self, x: Double) -> (r: usize)
        requires
            self.repeatable(),
        ensures
            r == self.whole_of(x),
    ;

    /// The whole samples in a span of seconds.
    fn samples(&self, seconds: Single, sample_rate: Single) -> (r: usize)
        requires
            self.repeatable(),
        ensures
            r == self.samples_of(seconds, sample_rate),
    ;

    /// A span of seconds in samples, to the nearest whole one.
    fn nearest_sample(&self, seconds: Single, sample_rate: Single) -> (r: usize)
        requires
            self.repeatable(),
        ensures
            r == self.nearest_sample_of(seconds, sample_rate),
    ;

    /// A number in decimal.
    fn spelled(&self, x: Single) -> (r: String)
        requires
            self.repeatable(),
        ensures
            r@ == self.spelled_of(x),
    ;

    /// A span of samples in seconds, to a thousandth.
    fn spelled_span(&self, samples: usize, sample_rate: Single) -> (r: String)
        requires
            self.repeatable(),
        ensures
            r@ == self.spelled_span_of(samples, sample_rate),
    ;

    /// A sample rate, in whole hertz.
    fn spelled_rate(&self, sample_rate: Single) -> (r: String)
        requires
            self.repeatable(),
        ensures
            r@ == self.spelled_rate_of(sample_rate),
    ;

}

/// [`Units`] over elementary arithmetic.
pub struct Converted<R> {
    pub reals: R,
}

impl<R: Reals> Units for Converted<R> {
    open spec fn repeatable(&self) -> bool {
        self.reals.repeatable()
    }

    open spec fn seconds_of(&self, ms: Single) -> Single {
        let r = &self.reals;
        r.over_single_of(ms, (Single { bits: 0x447a_0000 }))
    }

    fn seconds(&self, ms: Single) -> (answer: Single) {
        let r = &self.reals;
        r.over_single(ms, (Single { bits: 0x447a_0000 }))
    }

    open spec fn seconds_double_of(&self, ms: Double) -> Double {
        let r = &self.reals;
        r.over_of(ms, (Double { bits: 0x408f_4000_0000_0000 }))
    }

    fn seconds_double(&self, ms: Double) -> (answer: Double) {
        let r = &self.reals;
        r.over(ms, (Double { bits: 0x408f_4000_0000_0000 }))
    }

    open spec fn widen_of(&self, x: Single) -> Double {
        let r = &self.reals;
        r.widen_of(x)
    }

    fn widen(&self, x: Single) -> (answer: Double) {
        let r = &self.reals;
        r.widen(x)
    }

    open spec fn product_of(&self, a: Single, b: Single) -> Single {
        let r = &self.reals;
        r.times_single_of(a, b)
    }

    fn product(&self, a: Single, b: Single) -> (answer: Single) {
        let r = &self.reals;
        r.times_single(a, b)
    }

    open spec fn release_of(&self, alpha: Single, policy: ReleasePolicy) -> Single {
        let r = &self.reals;
        r.over_single_of(policy.fade_dur_scale, alpha).larger(policy.fade_dur_min).smaller(policy.fade_dur_max)
    }

    fn release(&self, alpha: Single, policy: ReleasePolicy) -> (answer: Single) {
        let r = &self.reals;
        r.over_single(policy.fade_dur_scale, alpha).max(policy.fade_dur_min).min(policy.fade_dur_max)
    }

    open spec fn updates_of(&self, ms: Double, sample_rate: Double) -> Double {
        let r = &self.reals;
        r.round_of(r.times_of(r.times_of(ms, (Double { bits: 0x3f50_624d_d2f1_a9fc })), sample_rate))
    }

    fn updates(&self, ms: Double, sample_rate: Double) -> (answer: Double) {
        let r = &self.reals;
        r.round(r.times(r.times(ms, (Double { bits: 0x3f50_624d_d2f1_a9fc })), sample_rate))
    }

    open spec fn whole_of(&self, x: Double) -> usize {
        let r = &self.reals;
        r.whole_of(x)
    }

    fn whole(&self, x: Double) -> (answer: usize) {
        let r = &self.reals;
        r.whole(x)
    }

    open spec fn samples_of(&self, seconds: Single, sample_rate: Single) -> usize {
        let r = &self.reals;
        r.whole_single_of(r.times_single_of(seconds, sample_rate))
    }

    fn samples(&self, seconds: Single, sample_rate: Single) -> (answer: usize) {
        let r = &self.reals;
        r.whole_single(r.times_single(seconds, sample_rate))
    }

    open spec fn nearest_sample_of(&self, seconds: Single, sample_rate: Single) -> usize {
        let r = &self.reals;
        r.whole_single_of(r.round_single_of(r.times_single_of(seconds, sample_rate)))
    }

    fn nearest_sample(&self, seconds: Single, sample_rate: Single) -> (answer: usize) {
        let r = &self.reals;
        r.whole_single(r.round_single(r.times_single(seconds, sample_rate)))
    }

    open spec fn spelled_of(&self, x: Single) -> Seq<char> {
        let r = &self.reals;
        r.plain_single_of(x)
    }

    fn spelled(&self, x: Single) -> (answer: String) {
        let r = &self.reals;
        r.plain_single(x)
    }

    open spec fn spelled_span_of(&self, samples: usize, sample_rate: Single) -> Seq<char> {
        let r = &self.reals;
        r.fixed_of(r.widen_of(r.over_single_of(r.count_single_of(samples), sample_rate)), 3)
    }

    fn spelled_span(&self, samples: usize, sample_rate: Single) -> (answer: String) {
        let r = &self.reals;
        r.fixed(r.widen(r.over_single(r.count_single(samples), sample_rate)), 3)
    }

    open spec fn spelled_rate_of(&self, sample_rate: Single) -> Seq<char> {
        let r = &self.reals;
        written(r.word_single_of(sample_rate) as int)
    }

    fn spelled_rate(&self, sample_rate: Single) -> (answer: String) {
        let r = &self.reals;
        let mut out = String::new();
        push_number(&mut out, r.word_single(sample_rate) as u64);
        out
    }

}

/// Settings in milliseconds are seconds after dividing by a thousand.
pub proof fn law_a_thousand_milliseconds_are_a_second<R: Reals>(u: &Converted<R>, ms: Single, wide: Double)
    requires
        rounds(&u.reals),
        ms.finite() && wide.finite(),
        ordinary(ms.value()),
        ordinary(wide.value()),
    ensures
        u.seconds_of(ms).finite(),
        close(u.seconds_of(ms).value(), ms.value() / 1000real, 4),
        u.seconds_double_of(wide).finite(),
        close(u.seconds_double_of(wide).value(), wide.value() / 1000real, 4),
{
    let r = &u.reals;
    lemma_thousands();
    lemma_close_to_itself(ms.value(), 0);
    lemma_close_to_itself(wide.value(), 0);
    lemma_close_to_itself(1000real, 0);
    lemma_over_single(r, ms, Single { bits: 0x447a_0000 }, ms.value(), 1000real, 0, 0);
    lemma_over(r, wide, Double { bits: 0x408f_4000_0000_0000 }, wide.value(), 1000real, 0, 0);
}

proof fn lemma_thousands()
    ensures
        (Single { bits: 0x447a_0000 }).finite(),
        (Single { bits: 0x447a_0000 }).value() == 1000real,
        (Double { bits: 0x408f_4000_0000_0000 }).finite(),
        (Double { bits: 0x408f_4000_0000_0000 }).value() == 1000real,
        (Double { bits: 0x3f50_624d_d2f1_a9fc }).finite(),
        close((Double { bits: 0x3f50_624d_d2f1_a9fc }).value(), 1real / 1000real, 1),
{
    vstd::arithmetic::power2::lemma2_to64();
    lemma_single_above_one(Single { bits: 0x447a_0000 }, 9, 0x7a_0000);
    lemma_double_above_one(Double { bits: 0x408f_4000_0000_0000 }, 9, 0xf_4000_0000_0000);
    lemma_double_below_one(Double { bits: 0x3f50_624d_d2f1_a9fc }, 10, 0x0_624d_d2f1_a9fc);
    assert(0x10_0000_0000_0000 * pow2(10) == 0x4000_0000_0000_0000);
    assert((0x10_0000_0000_0000 * pow2(10)) as real == 0x4000_0000_0000_0000real);
    lemma_within_a_millionth((Double { bits: 0x3f50_624d_d2f1_a9fc }).value(), 1real / 1000real);
}

/// A span of seconds is as many samples as the sample rate gives it, whole ones.
pub proof fn law_seconds_are_samples_at_the_rate<R: Reals>(
    u: &Converted<R>,
    seconds: Single,
    sample_rate: Single,
)
    requires
        rounds(&u.reals),
        steps(&u.reals),
        seconds.finite() && sample_rate.finite(),
        0real < seconds.value(),
        0real < sample_rate.value(),
        tame(seconds.value() * sample_rate.value()),
        seconds.value() * sample_rate.value() <= 900_000_000real,
    ensures
        exists|x: real|
            {
                &&& #[trigger] close(x, seconds.value() * sample_rate.value(), 3)
                &&& u.samples_of(seconds, sample_rate) as real <= x
                &&& x < u.samples_of(seconds, sample_rate) as real + 1real
            },
{
    let r = &u.reals;
    lemma_close_to_itself(seconds.value(), 0);
    lemma_close_to_itself(sample_rate.value(), 0);
    lemma_times_single(r, seconds, sample_rate, seconds.value(), sample_rate.value(), 0, 0);
    let x = r.times_single_of(seconds, sample_rate);
    lemma_close_sign(x.value(), seconds.value() * sample_rate.value(), 3);
    assert(close(x.value(), seconds.value() * sample_rate.value(), 3));
}

/// A span of milliseconds between updates is as many samples, to the nearest: what is rounded to a
/// whole number is `ms / 1000` of the sample rate.
pub proof fn law_updates_are_milliseconds_apart<R: Reals>(u: &Converted<R>, ms: Double, sample_rate: Double)
    requires
        rounds(&u.reals),
        ms.finite() && sample_rate.finite(),
        ordinary(ms.value()),
        ordinary(sample_rate.value()),
        tame(1real / 1000real * ms.value() * sample_rate.value()),
    ensures
        exists|x: Double|
            {
                &&& x.finite()
                &&& close(x.value(), 1real / 1000real * ms.value() * sample_rate.value(), 8)
                &&& u.updates_of(ms, sample_rate) == #[trigger] u.reals.round_of(x)
            },
{
    let r = &u.reals;
    lemma_thousands();
    let (a, b) = (ms.value(), sample_rate.value());
    lemma_close_to_itself(a, 0);
    lemma_close_to_itself(b, 0);
    let share = Double { bits: 0x3f50_624d_d2f1_a9fc };
    assert(a * (1real / 1000real) == 1real / 1000real * a);
    lemma_times(r, ms, share, a, 1real / 1000real, 0, 1);
    lemma_times(r, r.times_of(ms, share), sample_rate, 1real / 1000real * a, b, 4, 0);
    let x = r.times_of(r.times_of(ms, share), sample_rate);
    lemma_close_looser(x.value(), 1real / 1000real * a * b, 7, 8);
    assert(u.updates_of(ms, sample_rate) == r.round_of(x));
}

/// A release lasts the policy's scale over the decay rate, or as long as the end of the policy's range
/// that this is beyond: the faster a grain decays, the shorter its release.
pub proof fn law_a_release_is_as_short_as_the_decay_is_fast<R: Reals>(
    u: &Converted<R>,
    alpha: Single,
    policy: ReleasePolicy,
)
    requires
        rounds(&u.reals),
        alpha.finite() && policy.fade_dur_scale.finite(),
        policy.fade_dur_min.finite() && policy.fade_dur_max.finite(),
        ordinary(alpha.value()),
        ordinary(policy.fade_dur_scale.value()),
        tame(policy.fade_dur_scale.value() / alpha.value()),
        0real < policy.fade_dur_min.value() <= policy.fade_dur_max.value(),
    ensures
        u.release_of(alpha, policy).finite(),
        policy.fade_dur_min.value() <= u.release_of(alpha, policy).value()
            <= policy.fade_dur_max.value(),
        close(
            u.release_of(alpha, policy).value(),
            least(
                most(policy.fade_dur_scale.value() / alpha.value(), policy.fade_dur_min.value()),
                policy.fade_dur_max.value(),
            ),
            4,
        ),
{
    let r = &u.reals;
    let (s, a) = (policy.fade_dur_scale.value(), alpha.value());
    let (lo, hi) = (policy.fade_dur_min, policy.fade_dur_max);
    lemma_close_to_itself(s, 0);
    lemma_close_to_itself(a, 0);
    lemma_close_to_itself(lo.value(), 4);
    lemma_close_to_itself(hi.value(), 4);
    lemma_over_single(r, policy.fade_dur_scale, alpha, s, a, 0, 0);
    let q = r.over_single_of(policy.fade_dur_scale, alpha);
    lemma_larger_single(q, lo);
    lemma_larger_single(q.larger(lo), hi);
    lemma_close_most(q.value(), lo.value(), s / a, lo.value(), 4);
    lemma_close_most(most(q.value(), lo.value()), hi.value(), most(s / a, lo.value()), hi.value(), 4);
}

} // verus!
