//! The atom: an envelope shape, a carrier, and a placement.
//!
//! Every kind of atom is `amp * E(n) * sin(phi + omega n)` with an envelope `E` that depends on the
//! shape parameters alone. What differs between kinds is confined to [`Shape`].

use crate::dict::FofError;
use crate::gauss::{envelope_of, refusal, Carrier};
use crate::ieee::{Double, Single};
use crate::notation::Notation;
use crate::reals::Reals;
use crate::rounding::{
    close, gives, lemma_circle_constants, lemma_close_far, lemma_close_looser, lemma_close_once_more,
    lemma_close_sum, lemma_close_to_itself, lemma_mirrored, lemma_over_single, lemma_small_numbers,
    lemma_square_above, moderate, ordinary, rounds, tame,
};
use vstd::prelude::*;

verus! {

/// Which family an atom belongs to.
#[derive(Clone, Copy, Debug, PartialEq, Eq, Structural, Hash, PartialOrd, Ord)]
pub enum AtomKind {
    Fof,
    Gaussian,
}

impl AtomKind {
    /// Every kind, in the order reports list them.
    pub fn all() -> (r: [AtomKind; 2])
        ensures
            r@ == seq![AtomKind::Fof, AtomKind::Gaussian],
    {
        [AtomKind::Fof, AtomKind::Gaussian]
    }

    pub open spec fn spelling(self) -> Seq<char> {
        match self {
            AtomKind::Fof => "fof"@,
            AtomKind::Gaussian => "gaussian"@,
        }
    }

    pub fn name(self) -> (r: &'static str)
        ensures
            r@ == self.spelling(),
    {
        match self {
            AtomKind::Fof => "fof",
            AtomKind::Gaussian => "gaussian",
        }
    }
}

/// Envelope parameters of a FOF atom.
#[derive(Clone, Copy, Debug, PartialEq, Eq, Structural)]
pub struct EnvelopeParams {
    /// Decay rate, per second.
    pub alpha: Single,
    /// Attack duration, seconds.
    pub beta: Single,
    /// Amplitude relative to the peak at which the release begins.
    pub fade_level: Single,
    /// Release duration, seconds.
    pub fade_dur: Single,
}

/// Envelope parameters of a Gaussian atom.
#[derive(Clone, Copy, Debug, PartialEq, Eq, Structural)]
pub struct GaussianParams {
    /// Standard deviation of the envelope, seconds.
    pub sigma: Single,
    /// Amplitude relative to the peak at which the support is truncated.
    pub cutoff_level: Single,
}

/// The bits of a thousand: milliseconds in a second.
pub const MILLI: u32 = 0x447a_0000;

/// An envelope shape of any kind.
#[derive(Clone, Copy, Debug, PartialEq, Eq, Structural)]
pub enum Shape {
    Fof(EnvelopeParams),
    Gaussian(GaussianParams),
}

impl Shape {
    pub open spec fn family(self) -> AtomKind {
        match self {
            Shape::Fof(_) => AtomKind::Fof,
            Shape::Gaussian(_) => AtomKind::Gaussian,
        }
    }

    pub fn kind(&self) -> (r: AtomKind)
        ensures
            r == self.family(),
    {
        match self {
            Shape::Fof(_) => AtomKind::Fof,
            Shape::Gaussian(_) => AtomKind::Gaussian,
        }
    }

    pub fn as_fof(&self) -> (r: Option<EnvelopeParams>)
        ensures
            r == match *self {
                Shape::Fof(p) => Some(p),
                Shape::Gaussian(_) => None,
            },
    {
        match *self {
            Shape::Fof(p) => Some(p),
            Shape::Gaussian(_) => None,
        }
    }

    pub fn as_gaussian(&self) -> (r: Option<GaussianParams>)
        ensures
            r == match *self {
                Shape::Fof(_) => None,
                Shape::Gaussian(g) => Some(g),
            },
    {
        match *self {
            Shape::Fof(_) => None,
            Shape::Gaussian(g) => Some(g),
        }
    }

    /// A shape in one line.
    pub open spec fn description<N: Notation>(self, n: &N) -> Seq<char> {
        let milli = Single { bits: MILLI };
        match self {
            Shape::Fof(p) => "fof alpha "@ + n.fixed_of(n.widen_of(p.alpha), 3) + " beta "@
                + n.fixed_of(n.widen_of(n.times_single_of(p.beta, milli)), 2) + " ms"@,
            Shape::Gaussian(g) => "gaussian sigma "@ + n.fixed_of(
                n.widen_of(n.times_single_of(g.sigma, milli)),
                2,
            ) + " ms"@,
        }
    }

    /// A shape in one line.
    pub fn describe<N: Notation>(&self, n: &N) -> (r: String)
        requires
            n.repeatable(),
        ensures
            r@ == self.description(n),
    {
        let milli = Single { bits: MILLI };
        match self {
            Shape::Fof(p) => {
                let mut text = "fof alpha ".to_owned();
                text.append(n.fixed(n.widen(p.alpha), 3).as_str());
                text.append(" beta ");
                text.append(n.fixed(n.widen(n.times_single(p.beta, milli)), 2).as_str());
                text.append(" ms");
                text
            },
            Shape::Gaussian(g) => {
                let mut text = "gaussian sigma ".to_owned();
                text.append(n.fixed(n.widen(n.times_single(g.sigma, milli)), 2).as_str());
                text.append(" ms");
                text
            },
        }
    }

    /// The full -3 dB bandwidth, Hz: `alpha / PI` for a FOF, `sqrt(ln 2) / (PI sigma)` for a Gaussian.
    pub open spec fn bandwidth<R: Reals>(self, r: &R) -> Single {
        match self {
            Shape::Fof(p) => r.over_single_of(p.alpha, (Single { bits: 0x4049_0fdb })),
            Shape::Gaussian(g) => g.bandwidth(r),
        }
    }

    /// The full -3 dB bandwidth, Hz.
    pub fn bandwidth_hz<R: Reals>(&self, r: &R) -> (answer: Single)
        requires
            r.repeatable(),
        ensures
            answer == self.bandwidth(r),
    {
        match self {
            Shape::Fof(p) => r.over_single(p.alpha, (Single { bits: 0x4049_0fdb })),
            Shape::Gaussian(g) => g.bandwidth_hz(r),
        }
    }

    /// A support of so many samples to either side of the peak, as far as a count reaches.
    pub open spec fn around(half: usize) -> usize {
        if 2 * half + 1 <= usize::MAX {
            (2 * half + 1) as usize
        } else {
            usize::MAX
        }
    }

    /// The support by formula: for a FOF, `max(ln(1 / fade_level) / alpha, beta)` in samples.
    pub open spec fn estimate<R: Reals>(self, r: &R, sample_rate: Single) -> usize {
        match self {
            Shape::Fof(p) => {
                let n = r.over_of(
                    r.times_of(
                        r.ln_of(r.widen_of(p.fade_level)).mirrored(),
                        r.widen_of(sample_rate),
                    ),
                    r.widen_of(p.alpha),
                );
                let attack = r.widen_of(r.ceil_single_of(r.times_single_of(p.beta, sample_rate)));
                r.whole_of(r.ceil_of(n.larger(attack)).larger((Double { bits: 0x3ff0_0000_0000_0000 })))
            },
            Shape::Gaussian(g) => Shape::around(g.reach(r, sample_rate)),
        }
    }

    /// Support length without rendering: exact for a Gaussian, an estimate for a FOF, which ignores
    /// its release.
    pub fn approx_support_len<R: Reals>(&self, r: &R, sample_rate: Single) -> (answer: usize)
        requires
            r.repeatable(),
        ensures
            answer == self.estimate(r, sample_rate),
    {
        match self {
            Shape::Fof(p) => {
                let n = r.over(
                    r.times(r.ln(r.widen(p.fade_level)).negated(), r.widen(sample_rate)),
                    r.widen(p.alpha),
                );
                let attack = r.widen(r.ceil_single(r.times_single(p.beta, sample_rate)));
                r.whole(r.ceil(n.max(attack)).max((Double { bits: 0x3ff0_0000_0000_0000 })))
            },
            Shape::Gaussian(g) => {
                let half: usize = g.half_len(r, sample_rate);
                half.saturating_add(half).saturating_add(1)
            },
        }
    }

    /// The exact bits a rendered envelope is remembered under.
    pub open spec fn key(self) -> (u8, u32, u32) {
        match self {
            Shape::Fof(p) => (0u8, p.alpha.bits, p.beta.bits),
            Shape::Gaussian(g) => (1u8, g.sigma.bits, g.cutoff_level.bits),
        }
    }

    /// Exact-bits memo key for a rendered envelope.
    ///
    /// For a FOF this is `(alpha, beta)` and nothing else: the release is fixed for a whole analysis,
    /// so it does not need to be in the key.
    pub fn cache_key(&self) -> (r: (u8, u32, u32))
        ensures
            r == self.key(),
    {
        match self {
            Shape::Fof(p) => (0u8, p.alpha.bits, p.beta.bits),
            Shape::Gaussian(g) => (1u8, g.sigma.bits, g.cutoff_level.bits),
        }
    }
}

/// A memo key never serves one kind's envelope for another's, nor one Gaussian's for another.
pub proof fn law_keys_tell_shapes_apart(a: Shape, b: Shape)
    requires
        a.key() == b.key(),
    ensures
        a.family() == b.family(),
        a is Gaussian ==> a == b,
        a matches Shape::Fof(p) ==> b matches Shape::Fof(q) && p.alpha == q.alpha && p.beta
            == q.beta,
{
}

/// What a FOF synthesizer is told to play.
#[derive(Clone, Copy, Debug, PartialEq, Eq, Structural)]
pub struct FofParams {
    pub start_sample: u64,
    pub freq: Single,
    pub phase: Single,
    pub amp: Single,
    pub alpha: Single,
    pub beta: Single,
    pub fade_level: Single,
    pub fade_dur: Single,
}

/// A complete atom: envelope, carrier and placement.
#[derive(Clone, Copy, Debug, PartialEq, Eq, Structural)]
pub struct AtomParams {
    /// First sample of the support, relative to the analysed signal's origin. Signed so an atom may
    /// start before the excerpt.
    pub t0: i64,
    /// Carrier frequency, Hz.
    pub f: Single,
    pub env: Shape,
    /// Carrier phase, radians, referenced to `t0`.
    pub phi: Single,
    /// Linear amplitude.
    pub amp: Single,
}

impl AtomParams {
    pub fn kind(&self) -> (r: AtomKind)
        ensures
            r == self.env.family(),
    {
        self.env.kind()
    }

    /// The synthesizer parameters that play this atom at absolute sample `origin + t0`, or `None`
    /// for an atom it cannot play. A sample clock has no samples before its origin.
    pub fn to_fof_params(&self, origin: u64) -> (r: Option<FofParams>)
        requires
            self.env is Fof ==> 0 <= origin + self.t0 <= i64::MAX && origin <= i64::MAX,
        ensures
            r == match self.env {
                Shape::Fof(p) => Some(
                    FofParams {
                        start_sample: (origin + self.t0) as u64,
                        freq: self.f,
                        phase: self.phi,
                        amp: self.amp,
                        alpha: p.alpha,
                        beta: p.beta,
                        fade_level: p.fade_level,
                        fade_dur: p.fade_dur,
                    },
                ),
                Shape::Gaussian(_) => None,
            },
    {
        match self.env {
            Shape::Fof(p) => {
                let start: i64 = origin as i64 + self.t0;
                Some(
                    FofParams {
                        start_sample: start as u64,
                        freq: self.f,
                        phase: self.phi,
                        amp: self.amp,
                        alpha: p.alpha,
                        beta: p.beta,
                        fade_level: p.fade_level,
                        fade_dur: p.fade_dur,
                    },
                )
            },
            Shape::Gaussian(_) => None,
        }
    }
}

impl AtomParams {
    /// What the atom's envelope is multiplied with.
    pub open spec fn wave(self) -> Carrier {
        Carrier { f: self.f, phi: self.phi, amp: self.amp }
    }

    /// Sample `n` of a Gaussian atom, zero past its support.
    pub open spec fn gaussian_sample<R: Reals>(
        self,
        r: &R,
        g: GaussianParams,
        sample_rate: Single,
        n: int,
    ) -> Single {
        if n <= 2 * g.reach(r, sample_rate) {
            g.sample(r, self.wave(), sample_rate, n as usize)
        } else {
            Single { bits: 0 }
        }
    }

    /// Render into a buffer, overwriting it.
    ///
    /// A FOF is rendered by `fof`, which is handed the atom and the buffer's length; a Gaussian by
    /// its formula.
    pub fn render_into<R: Reals, S: Fn(AtomParams, usize) -> Vec<Single>>(
        &self,
        r: &R,
        sample_rate: Single,
        fof: S,
        buf: &mut Vec<Single>,
    )
        requires
            r.repeatable(),
            call_requires(fof, (*self, old(buf)@.len() as usize)),
        ensures
            match self.env {
                Shape::Fof(_) => call_ensures(fof, (*self, old(buf)@.len() as usize), *final(buf)),
                Shape::Gaussian(g) => final(buf)@ == Seq::new(
                    old(buf)@.len(),
                    |n: int| self.gaussian_sample(r, g, sample_rate, n),
                ),
            },
    {
        match self.env {
            Shape::Fof(_) => {
                let len: usize = buf.len();
                *buf = fof(*self, len);
            },
            Shape::Gaussian(g) => {
                let carrier = Carrier { f: self.f, phi: self.phi, amp: self.amp };
                g.render_atom_into(r, carrier, sample_rate, buf);
            },
        }
    }
}

/// The sum of the squares of the first `n` samples, in order.
pub open spec fn energy_of<R: Reals>(r: &R, samples: Seq<Single>, n: int) -> Double
    decreases n,
{
    if n <= 0 {
        (Double { bits: 0x8000_0000_0000_0000 })
    } else {
        let s = r.widen_of(samples[n - 1]);
        r.plus_of(energy_of(r, samples, n - 1), r.times_of(s, s))
    }
}

/// The sum of the squares of some samples, in order.
pub fn energy<R: Reals>(r: &R, samples: &[Single]) -> (answer: Double)
    requires
        r.repeatable(),
    ensures
        answer == energy_of(r, samples@, samples@.len() as int),
{
    let mut sum = (Double { bits: 0x8000_0000_0000_0000 });
    let mut n: usize = 0;
    while n < samples.len()
        invariant
            r.repeatable(),
            n <= samples@.len(),
            sum == energy_of(r, samples@, n as int),
        decreases samples@.len() - n,
    {
        let s = r.widen(samples[n]);
        sum = r.plus(sum, r.times(s, s));
        n += 1;
    }
    sum
}

/// A shape's samples are an envelope, at a sample rate.
pub open spec fn is_envelope<R: Reals>(
    r: &R,
    params: Shape,
    sample_rate: Single,
    samples: Seq<Single>,
    env: Envelope,
) -> bool {
    &&& env.params == params
    &&& env.sample_rate == sample_rate
    &&& env.samples@ == samples
    &&& env.energy == energy_of(r, samples, samples.len() as int)
}

/// A block's envelope, obtained by rendering.
#[derive(Clone, Debug)]
pub struct Envelope {
    pub params: Shape,
    pub sample_rate: Single,
    /// The envelope, truncated to its support.
    pub samples: Vec<Single>,
    /// The sum of its squares.
    pub energy: Double,
}

/// An envelope as a value.
pub struct EnvelopeView {
    pub params: Shape,
    pub sample_rate: Single,
    pub samples: Seq<Single>,
    pub energy: Double,
}

impl View for Envelope {
    type V = EnvelopeView;

    open spec fn view(&self) -> EnvelopeView {
        EnvelopeView {
            params: self.params,
            sample_rate: self.sample_rate,
            samples: self.samples@,
            energy: self.energy,
        }
    }
}

impl Envelope {
    /// An envelope of samples rendered for a shape.
    pub fn of_samples<R: Reals>(
        r: &R,
        params: Shape,
        sample_rate: Single,
        samples: Vec<Single>,
    ) -> (answer: Envelope)
        requires
            r.repeatable(),
        ensures
            is_envelope(r, params, sample_rate, samples@, answer),
    {
        let energy = energy(r, samples.as_slice());
        Envelope { params, sample_rate, samples, energy }
    }

    /// Render the envelope of any shape: a FOF's by `fof`, a Gaussian's by its formula.
    pub fn render<R: Reals, S: Fn(EnvelopeParams, Single) -> Result<Vec<Single>, FofError>>(
        r: &R,
        params: Shape,
        sample_rate: Single,
        fof: S,
    ) -> (answer: Result<Envelope, FofError>)
        requires
            r.repeatable(),
            match params {
                Shape::Fof(p) => call_requires(fof, (p, sample_rate)),
                Shape::Gaussian(g) => 2 * g.reach(r, sample_rate) + 1 <= usize::MAX,
            },
        ensures
            match params {
                Shape::Fof(p) => exists|drawn: Result<Vec<Single>, FofError>|
                    {
                        &&& #[trigger] call_ensures(fof, (p, sample_rate), drawn)
                        &&& match (drawn, answer) {
                            (Ok(samples), Ok(env)) => is_envelope(
                                r,
                                params,
                                sample_rate,
                                samples@,
                                env,
                            ),
                            (Err(a), Err(b)) => a == b,
                            _ => false,
                        }
                    },
                Shape::Gaussian(g) => match answer {
                    Ok(env) => refusal(r, g, sample_rate) is None && is_envelope(
                        r,
                        params,
                        sample_rate,
                        envelope_of(r, g.reach(r, sample_rate), g.width(r, sample_rate)),
                        env,
                    ),
                    Err(FofError::Invalid(why)) => refusal(r, g, sample_rate) == Some(why@),
                    Err(FofError::SilentGrain) => false,
                },
            },
    {
        match params {
            Shape::Fof(p) => {
                let drawn = fof(p, sample_rate);
                let ghost result = drawn;
                assert(call_ensures(fof, (p, sample_rate), result));
                match drawn {
                    Ok(samples) => Ok(Envelope::of_samples(r, params, sample_rate, samples)),
                    Err(e) => Err(e),
                }
            },
            Shape::Gaussian(g) => match g.render_envelope(r, sample_rate) {
                Ok(samples) => Ok(Envelope::of_samples(r, params, sample_rate, samples)),
                Err(e) => Err(e),
            },
        }
    }

    pub fn support_len(&self) -> (r: usize)
        ensures
            r == self.samples@.len(),
    {
        self.samples.len()
    }

    pub fn kind(&self) -> (r: AtomKind)
        ensures
            r == self.params.family(),
    {
        self.params.kind()
    }
}

/// A grain's bandwidth is its decay over pi.
pub proof fn law_a_grains_bandwidth_is_its_decay<R: Reals>(r: &R, p: EnvelopeParams)
    requires
        rounds(r),
        p.alpha.finite(),
        ordinary(p.alpha.value()),
    ensures
        Shape::Fof(p).bandwidth(r).finite(),
        close(
            Shape::Fof(p).bandwidth(r).value(),
            p.alpha.value() / (3_141_593real / 1_000_000real),
            5,
        ),
{
    lemma_circle_constants();
    lemma_close_to_itself(p.alpha.value(), 0);
    lemma_over_single(
        r,
        p.alpha,
        Single { bits: 0x4049_0fdb },
        p.alpha.value(),
        3_141_593real / 1_000_000real,
        0,
        1,
    );
}

/// The sum of the squares of the first `n` samples.
pub open spec fn squares_sum(samples: Seq<Single>, n: int) -> real
    decreases n,
{
    if n <= 0 {
        0real
    } else {
        squares_sum(samples, n - 1) + samples[n - 1].value() * samples[n - 1].value()
    }
}

/// An energy is the sum of the squares of the samples, to two parts in a million for each.
pub proof fn law_energy_is_the_sum_of_squares<R: Reals>(r: &R, samples: Seq<Single>, n: int)
    requires
        rounds(r),
        0 <= n <= samples.len(),
        n <= 400_000,
        forall|i: int|
            0 <= i < n ==> (#[trigger] samples[i]).finite() && (samples[i].value() == 0real || tame(
                samples[i].value() * samples[i].value(),
            )),
        squares_sum(samples, n) <= 1_000_000_000_000_000_000_000_000_000real,
    ensures
        energy_of(r, samples, n).finite(),
        close(energy_of(r, samples, n).value(), squares_sum(samples, n), 2 * n + 1),
        0real <= squares_sum(samples, n),
        squares_sum(samples, n) == 0real || tame(squares_sum(samples, n)),
    decreases n,
{
    if n <= 0 {
        lemma_small_numbers();
        lemma_mirrored(Double { bits: 0 });
        assert((Double { bits: 0 }).mirrored() == Double { bits: 0x8000_0000_0000_0000 });
        lemma_close_to_itself(0real, 1);
    } else {
        let x = samples[n - 1];
        let v = x.value();
        lemma_square_above(v);
        law_energy_is_the_sum_of_squares(r, samples, n - 1);
        let s = r.widen_of(x);
        let sq = r.times_of(s, s);
        assert(gives(sq, v * v));
        let before = energy_of(r, samples, n - 1);
        let sum = squares_sum(samples, n - 1);
        lemma_close_looser(sq.value(), v * v, 1, 2 * n - 1);
        lemma_close_looser(before.value(), sum, 2 * (n - 1) + 1, 2 * n - 1);
        lemma_close_sum(before.value(), sq.value(), sum, v * v, 2 * n - 1);
        let total = sum + v * v;
        let got = before.value() + sq.value();
        assert(gives(r.plus_of(before, sq), got));
        assert(moderate(got)) by {
            lemma_close_far(got, total, 2 * n - 1);
        }
        lemma_close_once_more(energy_of(r, samples, n).value(), got, total, 2 * n - 1);
    }
}

} // verus!
