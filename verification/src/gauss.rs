//! The Gaussian atom.
//!
//! ```text
//! atom[n] = amp * g[n] * sin(phi + omega * n)      g[n] = exp(-(n - h)^2 / (2 s^2))
//! ```
//!
//! with `n = 0 ..= 2h`, so the onset is the first sample of the support and the peak sits `h` samples
//! later. `g[h - d]` and `g[h + d]` are the same expression of the same `d`, so each is evaluated
//! once.

use crate::atom::GaussianParams;
use crate::dict::FofError;
use crate::ieee::{Double, Single};
use crate::reals::Reals;
use crate::rounding::{
    close, exponentiates, gives, is_exponential, is_log, is_logarithm, lemma_above, lemma_circle_constants,
    lemma_close_looser, lemma_close_mirrored, lemma_close_ratio, lemma_close_sign,
    lemma_close_through, lemma_close_to_itself, lemma_counts, lemma_decays, lemma_double_below_one,
    lemma_exponential_of_zero, lemma_mirrored, lemma_mirrored_ratio, lemma_narrows, lemma_over,
    lemma_small_numbers, lemma_times, lemma_within_a_millionth, moderate, ordinary, rounds,
    takes_logs, takes_roots, tame,
};
use vstd::arithmetic::power2::pow2;
use vstd::prelude::*;

verus! {

/// The bits of the level a Gaussian is truncated at when none is configured: -60 dB.
pub const DEFAULT_CUTOFF_LEVEL: u32 = 0x3a83_126f;

/// The bits of the single one.
pub const ONE: u32 = 0x3f80_0000;

/// Why a Gaussian cannot be rendered, if it cannot.
pub open spec fn refusal<R: Reals>(r: &R, p: GaussianParams, sample_rate: Single) -> Option<
    Seq<char>,
> {
    if !(p.sigma.above_zero() && p.sigma.finite()) {
        Some("gaussian sigma must be > 0 and finite"@)
    } else if !(p.cutoff_level.above_zero() && p.cutoff_level.less(Single { bits: ONE })) {
        Some("gaussian cutoff_level must be in (0, 1)"@)
    } else if !(sample_rate.above_zero() && sample_rate.finite()) {
        Some("sample_rate must be > 0"@)
    } else if p.reach(r, sample_rate) == 0 {
        Some("gaussian sigma is too short for a 3-sample support"@)
    } else {
        None
    }
}

impl GaussianParams {
    /// The standard deviation in samples.
    pub open spec fn spread<R: Reals>(self, r: &R, sample_rate: Single) -> Double {
        r.times_of(r.widen_of(self.sigma), r.widen_of(sample_rate))
    }

    /// The standard deviation in samples.
    pub fn sigma_samples<R: Reals>(&self, r: &R, sample_rate: Single) -> (answer: Double)
        requires
            r.repeatable(),
        ensures
            answer == self.spread(r, sample_rate),
    {
        r.times(r.widen(self.sigma), r.widen(sample_rate))
    }

    /// Samples from the first sample to the peak: `floor(s * sqrt(2 ln(1 / c)))`, or none.
    pub open spec fn reach<R: Reals>(self, r: &R, sample_rate: Single) -> usize {
        let level = r.over_of((Double { bits: 0x3ff0_0000_0000_0000 }), r.widen_of(self.cutoff_level));
        let h = r.floor_of(
            r.times_of(self.spread(r, sample_rate), r.root_of(r.times_of((Double { bits: 0x4000_0000_0000_0000 }), r.ln_of(level)))),
        );
        if h.finite() && h.positive() {
            r.whole_of(h)
        } else {
            0
        }
    }

    /// Samples from the first sample to the peak. The support is twice that and one.
    pub fn half_len<R: Reals>(&self, r: &R, sample_rate: Single) -> (answer: usize)
        requires
            r.repeatable(),
        ensures
            answer == self.reach(r, sample_rate),
    {
        let level = r.over((Double { bits: 0x3ff0_0000_0000_0000 }), r.widen(self.cutoff_level));
        let h = r.floor(
            r.times(self.sigma_samples(r, sample_rate), r.root(r.times((Double { bits: 0x4000_0000_0000_0000 }), r.ln(level)))),
        );
        if h.is_finite() && h.is_positive() {
            r.whole(h)
        } else {
            0
        }
    }

    /// The full -3 dB bandwidth, Hz: `sqrt(ln 2) / (PI sigma)`.
    pub open spec fn bandwidth<R: Reals>(self, r: &R) -> Single {
        r.narrow_of(r.over_of(r.root_of((Double { bits: 0x3fe6_2e42_fefa_39ef })), r.times_of((Double { bits: 0x4009_21fb_5444_2d18 }), r.widen_of(self.sigma))))
    }

    /// The full -3 dB bandwidth, Hz.
    pub fn bandwidth_hz<R: Reals>(&self, r: &R) -> (answer: Single)
        requires
            r.repeatable(),
        ensures
            answer == self.bandwidth(r),
    {
        r.narrow(r.over(r.root((Double { bits: 0x3fe6_2e42_fefa_39ef })), r.times((Double { bits: 0x4009_21fb_5444_2d18 }), r.widen(self.sigma))))
    }

    /// A Gaussian at the default cutoff.
    pub fn new(sigma: Single) -> (r: GaussianParams)
        ensures
            r == (GaussianParams { sigma, cutoff_level: Single { bits: DEFAULT_CUTOFF_LEVEL } }),
    {
        GaussianParams { sigma, cutoff_level: Single { bits: DEFAULT_CUTOFF_LEVEL } }
    }

    pub fn validate<R: Reals>(&self, r: &R, sample_rate: Single) -> (answer: Result<(), FofError>)
        requires
            r.repeatable(),
        ensures
            match answer {
                Ok(_) => refusal(r, *self, sample_rate) is None,
                Err(FofError::Invalid(why)) => refusal(r, *self, sample_rate) == Some(why@),
                Err(FofError::SilentGrain) => false,
            },
    {
        if !(self.sigma.is_above_zero() && self.sigma.is_finite()) {
            return Err(FofError::Invalid("gaussian sigma must be > 0 and finite"));
        }
        if !(self.cutoff_level.is_above_zero() && self.cutoff_level.lt(Single { bits: ONE })) {
            return Err(FofError::Invalid("gaussian cutoff_level must be in (0, 1)"));
        }
        if !(sample_rate.is_above_zero() && sample_rate.is_finite()) {
            return Err(FofError::Invalid("sample_rate must be > 0"));
        }
        if self.half_len(r, sample_rate) == 0 {
            return Err(FofError::Invalid("gaussian sigma is too short for a 3-sample support"));
        }
        Ok(())
    }

    /// Samples in the support.
    pub fn support_len<R: Reals>(&self, r: &R, sample_rate: Single) -> (answer: usize)
        requires
            r.repeatable(),
            2 * self.reach(r, sample_rate) + 1 <= usize::MAX,
        ensures
            answer == 2 * self.reach(r, sample_rate) + 1,
    {
        2 * self.half_len(r, sample_rate) + 1
    }

    /// `2 s^2`, with the standard deviation in samples.
    pub open spec fn width<R: Reals>(self, r: &R, sample_rate: Single) -> Double {
        let s = self.spread(r, sample_rate);
        r.times_of(r.times_of((Double { bits: 0x4000_0000_0000_0000 }), s), s)
    }

    /// `2 s^2`, with the standard deviation in samples.
    fn two_s2<R: Reals>(&self, r: &R, sample_rate: Single) -> (answer: Double)
        requires
            r.repeatable(),
        ensures
            answer == self.width(r, sample_rate),
    {
        let s = self.sigma_samples(r, sample_rate);
        r.times(r.times((Double { bits: 0x4000_0000_0000_0000 }), s), s)
    }

    /// The envelope over its whole support, its peak in the middle.
    pub fn render_envelope<R: Reals>(&self, r: &R, sample_rate: Single) -> (answer: Result<
        Vec<Single>,
        FofError,
    >)
        requires
            r.repeatable(),
            2 * self.reach(r, sample_rate) + 1 <= usize::MAX,
        ensures
            match answer {
                Ok(out) => refusal(r, *self, sample_rate) is None && out@ == envelope_of(
                    r,
                    self.reach(r, sample_rate),
                    self.width(r, sample_rate),
                ),
                Err(FofError::Invalid(why)) => refusal(r, *self, sample_rate) == Some(why@),
                Err(FofError::SilentGrain) => false,
            },
    {
        match self.validate(r, sample_rate) {
            Ok(_) => Ok(
                envelope_f32(r, self.half_len(r, sample_rate), self.two_s2(r, sample_rate)),
            ),
            Err(why) => Err(why),
        }
    }

    /// Sample `n` of an atom: `amp * g[n] * sin(phi + omega * n)`, rounded once.
    pub open spec fn sample<R: Reals>(
        self,
        r: &R,
        carrier: Carrier,
        sample_rate: Single,
        n: usize,
    ) -> Single {
        let omega = r.over_of(r.times_of((Double { bits: 0x4019_21fb_5444_2d18 }), r.widen_of(carrier.f)), r.widen_of(sample_rate));
        let wave = r.sine_of(r.plus_of(r.widen_of(carrier.phi), r.times_of(omega, r.count_of(n))));
        let g = value_of(r, n, self.reach(r, sample_rate), self.width(r, sample_rate));
        r.narrow_of(r.times_of(r.times_of(r.widen_of(carrier.amp), g), wave))
    }

    /// Render an atom into a buffer, overwriting it.
    ///
    /// Samples past the support are zero; a buffer shorter than the support is filled as far as it
    /// reaches.
    pub fn render_atom_into<R: Reals>(
        &self,
        r: &R,
        carrier: Carrier,
        sample_rate: Single,
        buf: &mut Vec<Single>,
    )
        requires
            r.repeatable(),
        ensures
            final(buf)@.len() == old(buf)@.len(),
            forall|n: int|
                0 <= n < final(buf)@.len() ==> #[trigger] final(buf)@[n] == if n <= 2 * self.reach(
                    r,
                    sample_rate,
                ) {
                    self.sample(r, carrier, sample_rate, n as usize)
                } else {
                    Single { bits: 0 }
                },
    {
        let h: usize = self.half_len(r, sample_rate);
        let two_s2 = self.two_s2(r, sample_rate);
        let omega = r.over(r.times((Double { bits: 0x4019_21fb_5444_2d18 }), r.widen(carrier.f)), r.widen(sample_rate));
        let amp = r.widen(carrier.amp);
        let phi = r.widen(carrier.phi);
        let len: usize = buf.len();
        let mut n: usize = 0;
        while n < len
            invariant
                r.repeatable(),
                len == buf@.len(),
                n <= len,
                h == self.reach(r, sample_rate),
                two_s2 == self.width(r, sample_rate),
                omega == r.over_of(r.times_of((Double { bits: 0x4019_21fb_5444_2d18 }), r.widen_of(carrier.f)), r.widen_of(sample_rate)),
                amp == r.widen_of(carrier.amp),
                phi == r.widen_of(carrier.phi),
                forall|i: int|
                    0 <= i < n ==> #[trigger] buf@[i] == if i <= 2 * h {
                        self.sample(r, carrier, sample_rate, i as usize)
                    } else {
                        Single { bits: 0 }
                    },
            decreases len - n,
        {
            let y = if n <= h || n - h <= h {
                let wave = r.sine(r.plus(phi, r.times(omega, r.count(n))));
                r.narrow(r.times(r.times(amp, value(r, n, h, two_s2)), wave))
            } else {
                Single { bits: 0 }
            };
            buf.set(n, y);
            n += 1;
        }
    }
}

/// What an envelope is multiplied with.
#[derive(Clone, Copy, Debug, PartialEq, Eq, Structural)]
pub struct Carrier {
    /// Frequency, Hz.
    pub f: Single,
    /// Phase at the first sample, radians.
    pub phi: Single,
    /// Linear amplitude.
    pub amp: Single,
}

/// `g[n]`, the definition.
pub open spec fn value_of<R: Reals>(r: &R, n: usize, h: usize, two_s2: Double) -> Double {
    let d = r.minus_of(r.count_of(n), r.count_of(h));
    r.exp_of(r.over_of(r.times_of(d, d).mirrored(), two_s2))
}

/// `g[n]`, the definition.
pub fn value<R: Reals>(r: &R, n: usize, h: usize, two_s2: Double) -> (answer: Double)
    requires
        r.repeatable(),
    ensures
        answer == value_of(r, n, h, two_s2),
{
    let d = r.minus(r.count(n), r.count(h));
    r.exp(r.over(r.times(d, d).negated(), two_s2))
}

/// The envelope at distance `d` from the peak, rounded once.
pub open spec fn exact_half_envelope_of<R: Reals>(r: &R, d: usize, two_s2: Double) -> Single {
    let x = r.count_of(d);
    r.narrow_of(r.exp_of(r.over_of(r.times_of(x, x).mirrored(), two_s2)))
}

/// The envelope at distance `d` from the peak, rounded once.
pub fn exact_half_envelope<R: Reals>(r: &R, d: usize, two_s2: Double) -> (answer: Single)
    requires
        r.repeatable(),
    ensures
        answer == exact_half_envelope_of(r, d, two_s2),
{
    let x = r.count(d);
    r.narrow(r.exp(r.over(r.times(x, x).negated(), two_s2)))
}

/// The envelope over its whole support: sample `n` is [`exact_half_envelope`] of its distance from
/// the peak.
pub open spec fn envelope_of<R: Reals>(r: &R, h: usize, two_s2: Double) -> Seq<Single> {
    Seq::new(
        (2 * h + 1) as nat,
        |n: int|
            exact_half_envelope_of(
                r,
                if n < h {
                    (h - n) as usize
                } else {
                    (n - h) as usize
                },
                two_s2,
            ),
    )
}

/// The whole envelope, each distance from the peak evaluated once for both sides.
pub fn envelope_f32<R: Reals>(r: &R, h: usize, two_s2: Double) -> (answer: Vec<Single>)
    requires
        r.repeatable(),
        2 * h + 1 <= usize::MAX,
    ensures
        answer@ == envelope_of(r, h, two_s2),
{
    let mut half: Vec<Single> = Vec::new();
    let mut d: usize = 0;
    while d <= h
        invariant
            r.repeatable(),
            2 * h + 1 <= usize::MAX,
            d <= h + 1,
            half@.len() == d,
            forall|i: int|
                0 <= i < d ==> #[trigger] half@[i] == exact_half_envelope_of(r, i as usize, two_s2),
        decreases h + 1 - d,
    {
        half.push(exact_half_envelope(r, d, two_s2));
        d += 1;
    }
    let mut out: Vec<Single> = Vec::new();
    let n: usize = 2 * h + 1;
    let mut i: usize = 0;
    while i < n
        invariant
            n == 2 * h + 1,
            i <= n,
            half@.len() == h + 1,
            forall|i: int|
                0 <= i < h + 1 ==> #[trigger] half@[i] == exact_half_envelope_of(
                    r,
                    i as usize,
                    two_s2,
                ),
            out@.len() == i,
            forall|k: int| 0 <= k < i ==> #[trigger] out@[k] == envelope_of(r, h, two_s2)[k],
        decreases n - i,
    {
        let at: usize = if i < h {
            h - i
        } else {
            i - h
        };
        out.push(half[at]);
        i += 1;
    }
    out
}

/// An envelope is its own mirror image about the peak, to the bit.
pub proof fn law_the_envelope_is_symmetric<R: Reals>(r: &R, h: usize, two_s2: Double, d: int)
    requires
        0 <= d <= h,
    ensures
        envelope_of(r, h, two_s2)[h - d] == envelope_of(r, h, two_s2)[h + d],
{
}

/// How far, relative, a fast result may sit from the exact one and still be trusted to round alike:
/// the bits of one less and one more `1e-13`.
pub const SETTLE_LOW: u64 = 0x3fef_ffff_ffff_fc7b;

pub const SETTLE_HIGH: u64 = 0x3ff0_0000_0000_01c2;

/// `y` rounded to a single, if both ends of the interval it is trusted within round alike. `None`
/// near a rounding boundary, where a caller computes exactly.
pub fn settled_f32<R: Reals>(r: &R, y: Double) -> (answer: Option<Single>)
    requires
        r.repeatable(),
    ensures
        answer == {
            let lo = r.narrow_of(r.times_of(y, Double { bits: SETTLE_LOW }));
            let hi = r.narrow_of(r.times_of(y, Double { bits: SETTLE_HIGH }));
            if lo == hi {
                Some(lo)
            } else {
                None
            }
        },
{
    let lo = r.narrow(r.times(y, Double { bits: SETTLE_LOW }));
    let hi = r.narrow(r.times(y, Double { bits: SETTLE_HIGH }));
    if lo == hi {
        Some(lo)
    } else {
        None
    }
}

/// Rounding never reverses an order, so a value between two that round alike rounds as they do: what
/// settles is the exact computation's, to the bit.
///
/// A zero is left out, since the two zeros compare equal.
pub proof fn law_what_settles_is_exact(lo: Single, exact: Single, hi: Single)
    requires
        lo == hi,
        lo.at_most(exact),
        exact.at_most(hi),
        lo.magnitude() != 0,
    ensures
        exact == lo,
{
}

/// A Gaussian's standard deviation in samples is its seconds at the sample rate; and twice its square
/// is what distances are measured against.
pub proof fn law_a_gaussian_is_as_wide_as_its_sigma<R: Reals>(r: &R, g: GaussianParams, sample_rate: Single)
    requires
        rounds(r),
        g.sigma.finite() && sample_rate.finite(),
        0real < g.sigma.value(),
        0real < sample_rate.value(),
        tame(g.sigma.value() * sample_rate.value()),
        tame(2real * (g.sigma.value() * sample_rate.value())),
        tame(
            2real * (g.sigma.value() * sample_rate.value()) * (g.sigma.value() * sample_rate.value()),
        ),
    ensures
        g.spread(r, sample_rate).finite(),
        close(g.spread(r, sample_rate).value(), g.sigma.value() * sample_rate.value(), 3),
        g.width(r, sample_rate).finite(),
        close(
            g.width(r, sample_rate).value(),
            2real * (g.sigma.value() * sample_rate.value()) * (g.sigma.value() * sample_rate.value()),
            12,
        ),
{
    lemma_small_numbers();
    let (a, b) = (g.sigma.value(), sample_rate.value());
    lemma_close_to_itself(a, 0);
    lemma_close_to_itself(b, 0);
    lemma_close_to_itself(2real, 0);
    lemma_times(r, r.widen_of(g.sigma), r.widen_of(sample_rate), a, b, 0, 0);
    let s = g.spread(r, sample_rate);
    let two = Double { bits: 0x4000_0000_0000_0000 };
    lemma_above(a, b);
    lemma_times(r, two, s, 2real, a * b, 0, 3);
    lemma_times(r, r.times_of(two, s), s, 2real * (a * b), a * b, 6, 3);
}

/// At a distance from the peak an envelope is the exponential of minus the distance's square over twice
/// the deviation's: at one deviation it is down by the root of `e`.
pub proof fn law_an_envelope_falls_with_the_square<R: Reals>(
    r: &R,
    e: spec_fn(real) -> real,
    d: usize,
    two_s2: Double,
)
    requires
        rounds(r),
        is_exponential(e),
        exponentiates(r, e),
        two_s2.finite(),
        1 <= d,
        0real < two_s2.value(),
        tame(d as real * d as real),
        tame(d as real * d as real / two_s2.value()),
        tame(e(-(2real * (d as real * d as real / two_s2.value())))),
    ensures
        exact_half_envelope_of(r, d, two_s2).finite(),
        exists|x: real|
            {
                &&& #[trigger] close(x, d as real * d as real / two_s2.value(), 12)
                &&& close(exact_half_envelope_of(r, d, two_s2).value(), e(-x), 3)
            },
{
    lemma_counts(r, d);
    let n = d as real;
    let c = r.count_of(d);
    lemma_times(r, c, c, n, n, 1, 1);
    let sq = r.times_of(c, c);
    lemma_mirrored(sq);
    lemma_close_to_itself(two_s2.value(), 0);
    lemma_above(n, n);
    let w = two_s2.value();
    // The quotient of the mirror image is the mirror image of the quotient.
    lemma_close_ratio(sq.value(), w, n * n, w, 5, 0);
    lemma_mirrored_ratio(sq.value(), w);
    let q = r.over_of(sq.mirrored(), two_s2);
    let y = sq.value() / w;
    lemma_close_sign(y, n * n / w, 7);
    assert(moderate(-y));
    assert(gives(q, -y));
    lemma_close_mirrored(q.value(), -y, 1);
    let x = -q.value();
    lemma_close_through(x, y, n * n / w, 1, 7);
    lemma_close_looser(x, n * n / w, 9, 12);
    lemma_decays(r, e, q, n * n / w, 9);
    lemma_close_sign(x, n * n / w, 9);
    lemma_exponential_of_zero(e);
    assert(e(-(2real * (n * n / w))) < e(q.value()) && e(q.value()) < e(0real));
    assert(tame(e(q.value())));
    lemma_narrows(r, r.exp_of(q), e(q.value()), 1);
    assert(-x == q.value());
}

/// The whole samples in a length, or none.
pub open spec fn whole_part<R: Reals>(r: &R, x: Double) -> usize {
    let h = r.floor_of(x);
    if h.finite() && h.positive() {
        r.whole_of(h)
    } else {
        0
    }
}

/// An envelope is cut where it falls to its cutoff: the half length is the whole part of the deviation
/// times the root of `2 ln(1 / cutoff)`.
pub proof fn law_an_envelope_is_cut_at_its_cutoff<R: Reals>(
    r: &R,
    l: spec_fn(real) -> real,
    base: real,
    g: GaussianParams,
    sample_rate: Single,
)
    requires
        rounds(r),
        takes_roots(r),
        is_logarithm(l, base),
        takes_logs(r, l),
        g.sigma.finite() && sample_rate.finite() && g.cutoff_level.finite(),
        0real < g.sigma.value(),
        0real < sample_rate.value(),
        0real < g.cutoff_level.value(),
        tame(1real / g.cutoff_level.value()),
        tame(g.sigma.value() * sample_rate.value()),
        forall|x: real|
            close(x, 1real / g.cutoff_level.value(), 4) ==> tame(2real * #[trigger] l(x)) && tame(l(x)),
    ensures
        exists|level: real, deep: Double|
            {
                &&& #[trigger] close(level, 1real / g.cutoff_level.value(), 4)
                &&& deep.finite() && 0real < deep.value()
                &&& close(deep.value() * deep.value(), 2real * l(level), 10)
                &&& g.reach(r, sample_rate) == whole_part(
                    r,
                    #[trigger] r.times_of(g.spread(r, sample_rate), deep),
                )
            },
{
    lemma_small_numbers();
    let c = g.cutoff_level.value();
    lemma_close_to_itself(c, 0);
    lemma_close_to_itself(1real, 0);
    lemma_close_to_itself(2real, 0);
    let (one, two) = (Double { bits: 0x3ff0_0000_0000_0000 }, Double { bits: 0x4000_0000_0000_0000 });
    lemma_over(r, one, r.widen_of(g.cutoff_level), 1real, c, 0, 0);
    let level = r.over_of(one, r.widen_of(g.cutoff_level));
    lemma_close_sign(level.value(), 1real / c, 4);
    let log = r.ln_of(level);
    assert(is_log(log, l(level.value())));
    assert(close(level.value(), 1real / c, 4));
    let y = l(level.value());
    lemma_times(r, two, log, 2real, y, 0, 1);
    let x = r.times_of(two, log);
    lemma_close_sign(x.value(), 2real * y, 4);
    let deep = r.root_of(x);
    lemma_close_through(deep.value() * deep.value(), x.value(), 2real * y, 3, 4);
    lemma_close_looser(deep.value() * deep.value(), 2real * y, 8, 10);
    let reach = r.times_of(g.spread(r, sample_rate), deep);
    assert(g.reach(r, sample_rate) == whole_part(r, reach));
}

/// A number's square is the logarithm of two.
pub open spec fn is_root_of_ln2(x: real) -> bool {
    0real < x && close(x * x, 693_147real / 1_000_000real, 5)
}

/// A Gaussian's bandwidth is the root of `ln 2` over pi times its deviation.
pub proof fn law_a_gaussians_bandwidth_is_its_width<R: Reals>(r: &R, g: GaussianParams)
    requires
        rounds(r),
        takes_roots(r),
        g.sigma.finite(),
        ordinary(g.sigma.value()),
        forall|x: real|
            #[trigger] is_root_of_ln2(x) ==> tame(
                x / (3_141_593real / 1_000_000real * g.sigma.value()),
            ),
    ensures
        g.bandwidth(r).finite(),
        exists|x: real|
            {
                &&& #[trigger] is_root_of_ln2(x)
                &&& close(
                    g.bandwidth(r).value(),
                    x / (3_141_593real / 1_000_000real * g.sigma.value()),
                    12,
                )
            },
{
    lemma_circle_constants();
    vstd::arithmetic::power2::lemma2_to64();
    let ln2 = Double { bits: 0x3fe6_2e42_fefa_39ef };
    lemma_double_below_one(ln2, 1, 0x6_2e42_fefa_39ef);
    assert(0x10_0000_0000_0000 * pow2(1) == 0x20_0000_0000_0000);
    assert((0x10_0000_0000_0000 * pow2(1)) as real == 0x20_0000_0000_0000real);
    lemma_within_a_millionth(ln2.value(), 693_147real / 1_000_000real);
    let root = r.root_of(ln2);
    let x = root.value();
    lemma_close_through(x * x, ln2.value(), 693_147real / 1_000_000real, 3, 1);
    let (pi, s) = (Double { bits: 0x4009_21fb_5444_2d18 }, g.sigma.value());
    lemma_close_to_itself(s, 0);
    lemma_close_to_itself(x, 0);
    let p = 3_141_593real / 1_000_000real;
    lemma_times(r, pi, r.widen_of(g.sigma), p, s, 1, 0);
    let wide = r.times_of(pi, r.widen_of(g.sigma));
    let y = x / (p * s);
    assert(is_root_of_ln2(x));
    lemma_over(r, root, wide, x, p * s, 0, 4);
    lemma_narrows(r, r.over_of(root, wide), y, 8);
    lemma_close_looser(g.bandwidth(r).value(), y, 10, 12);
}

} // verus!
