//! The analysis filters.
//!
//! One band is a cascade of identical complex one-poles, the sampled gammatone. The band signal is
//! twice the real part of the cascade's output. Writing it as a complex cascade rather than a fixed
//! recipe is what makes the order a genuine setting.
//!
//! **The normalisation gain is measured, not derived**: it comes from rendering the band's own impulse
//! response and summing its squares.

use crate::ieee::{Double, Single, ONE};
use crate::residual::error::ResidualAnalysisError;
use crate::residual::math::{BankMath, Complex, Pole};
use crate::residual::{MAX_ORDER, MIN_ORDER};
use vstd::prelude::*;

verus! {

/// A complex-pole gammatone band with its gain folded in.
#[derive(Debug)]
pub struct GammatoneBand {
    /// Centre frequency in Hz, as designed.
    pub center_hz: Double,
    /// The bandwidth the descriptor reports and the power detector reads.
    pub bandwidth_hz: Double,
    /// The measured gain.
    pub gain: Double,
    /// The repeated pole.
    pub pole: Pole,
    /// One complex accumulator per cascade section.
    pub state: Vec<Complex>,
}

pub open spec fn nothing() -> Complex {
    Complex { re: Double { bits: 0 }, im: Double { bits: 0 } }
}

/// A cascade of `order` sections at rest.
pub open spec fn at_rest(order: int) -> Seq<Complex> {
    Seq::new(order as nat, |i: int| nothing())
}

/// The value that leaves section `i` of a cascade fed `x`; what enters it, for `i == -1`.
pub open spec fn through<M: BankMath>(
    m: &M,
    pole: Pole,
    state: Seq<Complex>,
    x: Double,
    i: int,
) -> Complex
    decreases i + 1,
{
    if i < 0 {
        Complex { re: x, im: Double { bits: 0 } }
    } else {
        m.advance_of(through(m, pole, state, x, i - 1), pole, state[i])
    }
}

/// A cascade's state after one sample: each section holds what left it.
pub open spec fn stepped<M: BankMath>(
    m: &M,
    pole: Pole,
    state: Seq<Complex>,
    x: Double,
) -> Seq<Complex> {
    Seq::new(state.len(), |i: int| through(m, pole, state, x, i))
}

/// A cascade's output for one sample, before the gain.
pub open spec fn output<M: BankMath>(m: &M, pole: Pole, state: Seq<Complex>, x: Double) -> Double {
    m.twice_of(through(m, pole, state, x, state.len() - 1).re)
}

/// Sample `n` of an impulse.
pub open spec fn impulse(n: int) -> Double {
    if n == 0 {
        Double { bits: ONE }
    } else {
        Double { bits: 0 }
    }
}

/// A cascade's state after the first `n` samples of an impulse.
pub open spec fn rung<M: BankMath>(m: &M, pole: Pole, order: int, n: int) -> Seq<Complex>
    decreases n,
{
    if n <= 0 {
        at_rest(order)
    } else {
        stepped(m, pole, rung(m, pole, order, n - 1), impulse(n - 1))
    }
}

/// The energy of the first `n` samples of a cascade's impulse response.
pub open spec fn ringing<M: BankMath>(m: &M, pole: Pole, order: int, n: int) -> Double
    decreases n,
{
    if n <= 0 {
        Double { bits: 0 }
    } else {
        m.square_sum_of(
            ringing(m, pole, order, n - 1),
            output(m, pole, rung(m, pole, order, n - 1), impulse(n - 1)),
        )
    }
}

/// The bits of the count of samples an impulse response may take.
pub const LONGEST: u64 = 0x4170_0000_0000_0000;

/// A pole inside the unit circle.
pub open spec fn inside(p: Pole) -> bool {
    p.radius.less(Double { bits: ONE }) && p.radius.positive()
}

/// Why a band cannot be built, if it cannot.
pub open spec fn is_refusal<M: BankMath>(
    m: &M,
    center_hz: Double,
    sample_rate: Double,
    order: usize,
    e: ResidualAnalysisError,
) -> bool {
    let nyquist = m.half_of(sample_rate);
    let pole = m.pole_of(center_hz, m.bandwidth_of(center_hz), sample_rate);
    let n_max = m.horizon_of(order, pole.decay);
    let sum = ringing(m, pole, order as int, m.samples_of(n_max) as int);
    if !(sample_rate.finite() && sample_rate.positive()) {
        e == ResidualAnalysisError::InvalidSampleRate(sample_rate)
    } else if !(MIN_ORDER <= order <= MAX_ORDER) {
        e == ResidualAnalysisError::UnsupportedFilterOrder(order)
    } else if !(center_hz.finite() && center_hz.positive()) || nyquist.at_most(center_hz) {
        e == (ResidualAnalysisError::FrequencyAboveNyquist {
            freq_hz: center_hz,
            nyquist_hz: nyquist,
        })
    } else if !inside(pole) {
        e matches ResidualAnalysisError::FilterDesignFailed(why) && why@ == "pole radius "@
            + m.spelled_of(pole.radius) + " at "@ + m.spelled_of(center_hz)
            + " Hz is not inside the unit circle"@
    } else if !(n_max.finite() && n_max.less(Double { bits: LONGEST })) {
        e matches ResidualAnalysisError::FilterDesignFailed(why) && why@ == "impulse response at "@
            + m.spelled_of(center_hz) + " Hz does not decay within 2^24 samples"@
    } else if !(sum.finite() && sum.positive()) {
        e matches ResidualAnalysisError::FilterDesignFailed(why) && why@ == "impulse response at "@
            + m.spelled_of(center_hz) + " Hz summed to "@ + m.spelled_of(sum)
    } else {
        false
    }
}

/// A band can be built.
pub open spec fn buildable<M: BankMath>(
    m: &M,
    center_hz: Double,
    sample_rate: Double,
    order: usize,
) -> bool {
    let pole = m.pole_of(center_hz, m.bandwidth_of(center_hz), sample_rate);
    let n_max = m.horizon_of(order, pole.decay);
    let sum = ringing(m, pole, order as int, m.samples_of(n_max) as int);
    &&& sample_rate.finite() && sample_rate.positive()
    &&& MIN_ORDER <= order <= MAX_ORDER
    &&& center_hz.finite() && center_hz.positive()
    &&& !m.half_of(sample_rate).at_most(center_hz)
    &&& inside(pole)
    &&& n_max.finite() && n_max.less(Double { bits: LONGEST })
    &&& sum.finite() && sum.positive()
}

/// The band that is built.
pub open spec fn is_band<M: BankMath>(
    m: &M,
    center_hz: Double,
    sample_rate: Double,
    order: usize,
    b: GammatoneBand,
) -> bool {
    let bandwidth = m.bandwidth_of(center_hz);
    let pole = m.pole_of(center_hz, bandwidth, sample_rate);
    let n_max = m.horizon_of(order, pole.decay);
    &&& b.center_hz == center_hz
    &&& b.bandwidth_hz == bandwidth
    &&& b.pole == pole
    &&& b.gain == m.inverse_root_of(
        ringing(m, pole, order as int, m.samples_of(n_max) as int),
    )
    &&& b.state@ == at_rest(order as int)
}

impl GammatoneBand {
    /// Design a band centred at `center_hz`.
    ///
    /// Fails rather than clamps: a centre too high is a configuration error, not something to quietly
    /// move.
    pub fn design<M: BankMath>(m: &M, center_hz: Double, sample_rate: Double, order: usize) -> (r: Result<
        GammatoneBand,
        ResidualAnalysisError,
    >)
        requires
            m.repeatable(),
        ensures
            match r {
                Ok(b) => buildable(m, center_hz, sample_rate, order) && is_band(
                    m,
                    center_hz,
                    sample_rate,
                    order,
                    b,
                ),
                Err(e) => !buildable(m, center_hz, sample_rate, order) && is_refusal(
                    m,
                    center_hz,
                    sample_rate,
                    order,
                    e,
                ),
            },
    {
        if !(sample_rate.is_finite() && sample_rate.is_positive()) {
            return Err(ResidualAnalysisError::InvalidSampleRate(sample_rate));
        }
        if order < MIN_ORDER || order > MAX_ORDER {
            return Err(ResidualAnalysisError::UnsupportedFilterOrder(order));
        }
        let nyquist = m.half(sample_rate);
        if !(center_hz.is_finite() && center_hz.is_positive()) || center_hz.ge(nyquist) {
            return Err(
                ResidualAnalysisError::FrequencyAboveNyquist {
                    freq_hz: center_hz,
                    nyquist_hz: nyquist,
                },
            );
        }
        let bandwidth_hz = m.bandwidth(center_hz);
        let pole = m.pole(center_hz, bandwidth_hz, sample_rate);
        if !(pole.radius.lt(Double { bits: ONE }) && pole.radius.is_positive()) {
            let mut why = String::new();
            why.append("pole radius ");
            why.append(m.spelled(pole.radius).as_str());
            why.append(" at ");
            why.append(m.spelled(center_hz).as_str());
            why.append(" Hz is not inside the unit circle");
            assert(why@ =~= "pole radius "@ + m.spelled_of(pole.radius) + " at "@ + m.spelled_of(
                center_hz,
            ) + " Hz is not inside the unit circle"@);
            return Err(ResidualAnalysisError::FilterDesignFailed(why));
        }
        let mut state: Vec<Complex> = Vec::new();
        let mut i: usize = 0;
        while i < order
            invariant
                i <= order,
                state@ == at_rest(i as int),
            decreases order - i,
        {
            state.push(Complex { re: Double { bits: 0 }, im: Double { bits: 0 } });
            assert(state@ =~= at_rest(i + 1));
            i += 1;
        }
        let mut band = GammatoneBand {
            center_hz,
            bandwidth_hz,
            gain: Double { bits: ONE },
            pole,
            state,
        };
        match band.unit_noise_power_gain(m) {
            Ok(gain) => {
                band.gain = gain;
                Ok(band)
            },
            Err(e) => Err(e),
        }
    }

    /// The gain that brings the band's impulse response to unit energy, by rendering it.
    fn unit_noise_power_gain<M: BankMath>(&mut self, m: &M) -> (r: Result<
        Double,
        ResidualAnalysisError,
    >)
        requires
            m.repeatable(),
        ensures
            final(self).center_hz == old(self).center_hz,
            final(self).bandwidth_hz == old(self).bandwidth_hz,
            final(self).pole == old(self).pole,
            final(self).state@.len() == old(self).state@.len(),
            r is Ok ==> final(self).state@ == at_rest(old(self).state@.len() as int),
            ({
                let order = old(self).state@.len();
                let n_max = m.horizon_of(order as usize, old(self).pole.decay);
                let sum = ringing(
                    m,
                    old(self).pole,
                    order as int,
                    m.samples_of(n_max) as int,
                );
                match r {
                    Ok(g) => n_max.finite() && n_max.less(Double { bits: LONGEST }) && sum.finite()
                        && sum.positive() && g == m.inverse_root_of(sum),
                    Err(e) => if !(n_max.finite() && n_max.less(Double { bits: LONGEST })) {
                        e matches ResidualAnalysisError::FilterDesignFailed(why) && why@
                            == "impulse response at "@ + m.spelled_of(old(self).center_hz)
                            + " Hz does not decay within 2^24 samples"@
                    } else {
                        &&& !(sum.finite() && sum.positive())
                        &&& e matches ResidualAnalysisError::FilterDesignFailed(why) && why@
                            == "impulse response at "@ + m.spelled_of(old(self).center_hz)
                            + " Hz summed to "@ + m.spelled_of(sum)
                    },
                }
            }),
    {
        let order: usize = self.state.len();
        let n_max = m.horizon(order, self.pole.decay);
        if !(n_max.is_finite() && n_max.lt(Double { bits: LONGEST })) {
            let mut why = String::new();
            why.append("impulse response at ");
            why.append(m.spelled(self.center_hz).as_str());
            why.append(" Hz does not decay within 2^24 samples");
            assert(why@ =~= "impulse response at "@ + m.spelled_of(self.center_hz)
                + " Hz does not decay within 2^24 samples"@);
            return Err(ResidualAnalysisError::FilterDesignFailed(why));
        }
        self.reset();
        let total: usize = m.samples(n_max);
        let mut sum = Double { bits: 0 };
        let mut n: usize = 0;
        let ghost start = *self;
        while n < total
            invariant
                m.repeatable(),
                n <= total,
                order == start.state@.len(),
                self.pole == start.pole,
                self.center_hz == start.center_hz,
                self.bandwidth_hz == start.bandwidth_hz,
                self.state@ == rung(m, start.pole, order as int, n as int),
                self.state@.len() == order,
                sum == ringing(m, start.pole, order as int, n as int),
            decreases total - n,
        {
            let x = if n == 0 {
                Double { bits: ONE }
            } else {
                Double { bits: 0 }
            };
            let h = self.step(m, x);
            sum = m.square_sum(sum, h);
            n += 1;
        }
        self.reset();
        if !(sum.is_finite() && sum.is_positive()) {
            let mut why = String::new();
            why.append("impulse response at ");
            why.append(m.spelled(self.center_hz).as_str());
            why.append(" Hz summed to ");
            why.append(m.spelled(sum).as_str());
            assert(why@ =~= "impulse response at "@ + m.spelled_of(self.center_hz)
                + " Hz summed to "@ + m.spelled_of(sum));
            return Err(ResidualAnalysisError::FilterDesignFailed(why));
        }
        Ok(m.inverse_root(sum))
    }

    /// One sample through the cascade, before the gain.
    fn step<M: BankMath>(&mut self, m: &M, x: Double) -> (r: Double)
        requires
            m.repeatable(),
        ensures
            final(self).state@ == stepped(m, old(self).pole, old(self).state@, x),
            r == output(m, old(self).pole, old(self).state@, x),
            final(self).pole == old(self).pole,
            final(self).gain == old(self).gain,
            final(self).center_hz == old(self).center_hz,
            final(self).bandwidth_hz == old(self).bandwidth_hz,
    {
        let ghost before = self.state@;
        let ghost start = *self;
        let mut v = Complex { re: x, im: Double { bits: 0 } };
        let mut i: usize = 0;
        while i < self.state.len()
            invariant
                m.repeatable(),
                before == start.state@,
                i <= self.state@.len(),
                self.state@.len() == before.len(),
                self.pole == start.pole,
                self.gain == start.gain,
                self.center_hz == start.center_hz,
                self.bandwidth_hz == start.bandwidth_hz,
                v == through(m, start.pole, before, x, i - 1),
                forall|j: int|
                    0 <= j < i ==> #[trigger] self.state@[j] == through(m, start.pole, before, x, j),
                forall|j: int| i <= j < before.len() ==> #[trigger] self.state@[j] == before[j],
            decreases self.state@.len() - i,
        {
            let s = m.advance(v, self.pole, self.state[i]);
            self.state.set(i, s);
            v = s;
            i += 1;
        }
        assert(self.state@ =~= stepped(m, start.pole, before, x));
        m.twice(v.re)
    }

    /// One sample of the normalised band signal.
    pub fn process_sample<M: BankMath>(&mut self, m: &M, x: Double) -> (r: Double)
        requires
            m.repeatable(),
        ensures
            final(self).state@ == stepped(m, old(self).pole, old(self).state@, x),
            r == m.times_of(old(self).gain, output(m, old(self).pole, old(self).state@, x)),
            final(self).pole == old(self).pole,
            final(self).gain == old(self).gain,
            final(self).center_hz == old(self).center_hz,
            final(self).bandwidth_hz == old(self).bandwidth_hz,
    {
        let y = self.step(m, x);
        m.times(self.gain, y)
    }

    /// Return the filter to its designed state.
    pub fn reset(&mut self)
        ensures
            final(self).state@ == at_rest(old(self).state@.len() as int),
            final(self).pole == old(self).pole,
            final(self).gain == old(self).gain,
            final(self).center_hz == old(self).center_hz,
            final(self).bandwidth_hz == old(self).bandwidth_hz,
    {
        let ghost start = *self;
        let mut i: usize = 0;
        while i < self.state.len()
            invariant
                i <= self.state@.len(),
                self.state@.len() == start.state@.len(),
                self.pole == start.pole,
                self.gain == start.gain,
                self.center_hz == start.center_hz,
                self.bandwidth_hz == start.bandwidth_hz,
                forall|j: int| 0 <= j < i ==> #[trigger] self.state@[j] == nothing(),
            decreases self.state@.len() - i,
        {
            self.state.set(i, Complex { re: Double { bits: 0 }, im: Double { bits: 0 } });
            i += 1;
        }
        assert(self.state@ =~= at_rest(start.state@.len() as int));
    }
}

/// A band's state after the first `n` samples of a signal.
pub open spec fn fed<M: BankMath>(
    m: &M,
    pole: Pole,
    state: Seq<Complex>,
    signal: Seq<Single>,
    n: int,
) -> Seq<Complex>
    decreases n,
{
    if n <= 0 {
        state
    } else {
        stepped(m, pole, fed(m, pole, state, signal, n - 1), m.double_of(signal[n - 1]))
    }
}

/// Sample `n` of a band's output for a signal.
pub open spec fn heard<M: BankMath>(
    m: &M,
    pole: Pole,
    gain: Double,
    state: Seq<Complex>,
    signal: Seq<Single>,
    n: int,
) -> Double {
    m.times_of(gain, output(m, pole, fed(m, pole, state, signal, n), m.double_of(signal[n])))
}

impl GammatoneBand {
    /// Filter a block of samples.
    pub fn process_block<M: BankMath>(&mut self, m: &M, input: &[Single]) -> (r: Vec<Single>)
        requires
            m.repeatable(),
        ensures
            r@.len() == input@.len(),
            forall|n: int|
                0 <= n < r@.len() ==> #[trigger] r@[n] == m.single_of(
                    heard(m, old(self).pole, old(self).gain, old(self).state@, input@, n),
                ),
            final(self).state@ == fed(
                m,
                old(self).pole,
                old(self).state@,
                input@,
                input@.len() as int,
            ),
            final(self).pole == old(self).pole,
            final(self).gain == old(self).gain,
            final(self).center_hz == old(self).center_hz,
            final(self).bandwidth_hz == old(self).bandwidth_hz,
    {
        let ghost start = *self;
        let mut out: Vec<Single> = Vec::new();
        let mut n: usize = 0;
        while n < input.len()
            invariant
                m.repeatable(),
                n <= input@.len(),
                self.pole == start.pole,
                self.gain == start.gain,
                self.center_hz == start.center_hz,
                self.bandwidth_hz == start.bandwidth_hz,
                self.state@ == fed(m, start.pole, start.state@, input@, n as int),
                out@.len() == n,
                forall|i: int|
                    0 <= i < n ==> #[trigger] out@[i] == m.single_of(
                        heard(m, start.pole, start.gain, start.state@, input@, i),
                    ),
            decreases input@.len() - n,
        {
            let x = m.double(input[n]);
            let y = self.process_sample(m, x);
            out.push(m.single(y));
            n += 1;
        }
        out
    }
}

/// `a` to the power `n`.
pub open spec fn power<M: BankMath>(m: &M, a: Complex, n: int) -> Complex
    decreases n,
{
    if n <= 0 {
        Complex { re: Double { bits: ONE }, im: Double { bits: 0 } }
    } else {
        m.product_of(power(m, a, n - 1), a)
    }
}

/// The response of a cascade of `order` sections with pole `p`.
pub open spec fn branch<M: BankMath>(m: &M, p: Complex, z: Complex, order: int) -> Complex {
    m.inverse_of(power(m, m.away_of(p, z), order))
}

/// How much a band passes of a frequency: twice the real part of a signal is the signal and its
/// conjugate, and conjugating the impulse response conjugates the pole, so the real band's response
/// is the sum of the cascade's at the pole and at its conjugate.
pub open spec fn response<M: BankMath>(m: &M, b: GammatoneBand, omega: Double) -> Double {
    let z = m.delay_of(omega);
    let p = Complex { re: b.pole.re, im: b.pole.im };
    let q = Complex { re: b.pole.re, im: m.mirrored_of(b.pole.im) };
    let order = b.state@.len() as int;
    m.level_of(b.gain, m.sum_of(branch(m, p, z, order), branch(m, q, z, order)))
}

fn branch_at<M: BankMath>(m: &M, p: Complex, z: Complex, order: usize) -> (r: Complex)
    requires
        m.repeatable(),
    ensures
        r == branch(m, p, z, order as int),
{
    let d = m.away(p, z);
    let mut a = Complex { re: Double { bits: ONE }, im: Double { bits: 0 } };
    let mut i: usize = 0;
    while i < order
        invariant
            m.repeatable(),
            i <= order,
            d == m.away_of(p, z),
            a == power(m, d, i as int),
        decreases order - i,
    {
        a = m.product(a, d);
        i += 1;
    }
    m.inverse(a)
}

impl GammatoneBand {
    /// How much the normalised band passes of a frequency, in closed form. Never in the analysis
    /// path.
    pub fn magnitude_response<M: BankMath>(&self, m: &M, omega: Double) -> (r: Double)
        requires
            m.repeatable(),
        ensures
            r == response(m, *self, omega),
    {
        let z = m.delay(omega);
        let p = Complex { re: self.pole.re, im: self.pole.im };
        let q = Complex { re: self.pole.re, im: m.mirrored(self.pole.im) };
        let a = branch_at(m, p, z, self.state.len());
        let b = branch_at(m, q, z, self.state.len());
        m.level(self.gain, m.sum(a, b))
    }
}

/// A band that has been reset repeats itself: what it makes of a signal depends on its design and the
/// signal alone.
pub proof fn law_a_reset_band_repeats_itself<M: BankMath>(
    m: &M,
    a: GammatoneBand,
    b: GammatoneBand,
    signal: Seq<Single>,
    n: int,
)
    requires
        a.pole == b.pole,
        a.gain == b.gain,
        a.state@ == at_rest(a.state@.len() as int),
        b.state@ == at_rest(b.state@.len() as int),
        a.state@.len() == b.state@.len(),
    ensures
        heard(m, a.pole, a.gain, a.state@, signal, n) == heard(
            m,
            b.pole,
            b.gain,
            b.state@,
            signal,
            n,
        ),
{
}

} // verus!
