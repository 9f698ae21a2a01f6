//! The band-power detector.
//!
//! One pole per band: `P[n] = a*P[n-1] + (1-a)*y^2[n]`, with `a = exp(-1/(tau*fs))`. That is the whole
//! of the temporal model. `tau` is either the same everywhere or tied to each band's own bandwidth.

use crate::ieee::{Double, ONE};
use crate::residual::error::ResidualAnalysisError;
use crate::residual::math::{BankMath, Bands};
use crate::reals::Reals;
use crate::rounding::{
    close, least, lemma_close_most, lemma_close_to_itself, lemma_in_order, lemma_over, most, rounds,
    tame,
};
use vstd::prelude::*;

verus! {

#[derive(Clone, Copy, Debug, PartialEq, Eq, Structural)]
pub enum ResidualPowerTimeMode {
    /// Every band uses the same time constant.
    Fixed,
    /// `tau_b = clamp(tau_scale / bandwidth_b, tau_min, tau_max)`.
    BandwidthRelative,
}

impl Default for ResidualPowerTimeMode {
    fn default() -> (r: ResidualPowerTimeMode)
        ensures
            r == ResidualPowerTimeMode::BandwidthRelative,
    {
        ResidualPowerTimeMode::BandwidthRelative
    }
}

impl ResidualPowerTimeMode {
    pub open spec fn spelling(self) -> Seq<char> {
        match self {
            ResidualPowerTimeMode::Fixed => "fixed"@,
            ResidualPowerTimeMode::BandwidthRelative => "bandwidth_relative"@,
        }
    }

    /// The name the settings document and the book both use.
    pub fn as_str(self) -> (r: &'static str)
        ensures
            r@ == self.spelling(),
    {
        match self {
            ResidualPowerTimeMode::Fixed => "fixed",
            ResidualPowerTimeMode::BandwidthRelative => "bandwidth_relative",
        }
    }
}

/// The resolved power-detector settings: seconds, never milliseconds.
#[derive(Clone, Copy, Debug, PartialEq, Eq, Structural)]
pub struct ResidualPowerConfig {
    pub mode: ResidualPowerTimeMode,
    /// Used by [`ResidualPowerTimeMode::Fixed`].
    pub fixed_tau_seconds: Double,
    /// Used by [`ResidualPowerTimeMode::BandwidthRelative`]. Dimensionless.
    pub bandwidth_tau_scale: Double,
    pub tau_min_seconds: Double,
    pub tau_max_seconds: Double,
}

impl Default for ResidualPowerConfig {
    /// Two milliseconds fixed; relative to the bandwidth, from half a millisecond to ten.
    fn default() -> (r: ResidualPowerConfig)
        ensures
            r == (ResidualPowerConfig {
                mode: ResidualPowerTimeMode::BandwidthRelative,
                fixed_tau_seconds: Double { bits: 0x3f60_624d_d2f1_a9fc },
                bandwidth_tau_scale: Double { bits: ONE },
                tau_min_seconds: Double { bits: 0x3f40_624d_d2f1_a9fc },
                tau_max_seconds: Double { bits: 0x3f84_7ae1_47ae_147b },
            }),
    {
        ResidualPowerConfig {
            mode: ResidualPowerTimeMode::BandwidthRelative,
            fixed_tau_seconds: Double { bits: 0x3f60_624d_d2f1_a9fc },
            bandwidth_tau_scale: Double { bits: ONE },
            tau_min_seconds: Double { bits: 0x3f40_624d_d2f1_a9fc },
            tau_max_seconds: Double { bits: 0x3f84_7ae1_47ae_147b },
        }
    }
}

/// A time constant there can be a detector of.
pub open spec fn usable(v: Double) -> bool {
    v.finite() && v.positive()
}

pub open spec fn not_positive<M: BankMath>(m: &M, name: Seq<char>, v: Double) -> Seq<char> {
    name + " must be a positive number of seconds, got "@ + m.spelled_of(v)
}

/// Why a detector cannot be run with these settings, if it cannot.
pub open spec fn complaint<M: BankMath>(m: &M, c: ResidualPowerConfig) -> Option<Seq<char>> {
    if !usable(c.fixed_tau_seconds) {
        Some(not_positive(m, "tau_ms"@, c.fixed_tau_seconds))
    } else if !usable(c.tau_min_seconds) {
        Some(not_positive(m, "tau_min_ms"@, c.tau_min_seconds))
    } else if !usable(c.tau_max_seconds) {
        Some(not_positive(m, "tau_max_ms"@, c.tau_max_seconds))
    } else if !usable(c.bandwidth_tau_scale) {
        Some(not_positive(m, "tau_scale"@, c.bandwidth_tau_scale))
    } else if c.tau_max_seconds.less(c.tau_min_seconds) {
        Some(
            "tau_min_ms ("@ + m.spelled_milli_of(c.tau_min_seconds)
                + ") must not exceed tau_max_ms ("@ + m.spelled_milli_of(c.tau_max_seconds) + ")"@,
        )
    } else {
        None
    }
}

fn refuse<M: BankMath>(m: &M, name: &str, v: Double) -> (r: ResidualAnalysisError)
    requires
        m.repeatable(),
    ensures
        r matches ResidualAnalysisError::InvalidPowerTimeConstant(why) && why@ == not_positive(
            m,
            name@,
            v,
        ),
{
    let mut why = String::new();
    why.append(name);
    why.append(" must be a positive number of seconds, got ");
    why.append(m.spelled(v).as_str());
    assert(why@ =~= not_positive(m, name@, v));
    ResidualAnalysisError::InvalidPowerTimeConstant(why)
}

/// The time constant a band of some bandwidth ends up with.
pub open spec fn tau_for<M: BankMath>(m: &M, c: ResidualPowerConfig, bandwidth: Double) -> Double {
    match c.mode {
        ResidualPowerTimeMode::Fixed => c.fixed_tau_seconds,
        ResidualPowerTimeMode::BandwidthRelative => {
            let t = m.over_of(c.bandwidth_tau_scale, bandwidth);
            if t.less(c.tau_min_seconds) {
                c.tau_min_seconds
            } else if c.tau_max_seconds.less(t) {
                c.tau_max_seconds
            } else {
                t
            }
        },
    }
}

impl ResidualPowerConfig {
    /// Reject time constants that would produce no detector at all.
    ///
    /// Both modes' constants are checked whichever mode is selected: a negative number in the
    /// document is a typo whether or not this run reads it.
    pub fn validate<M: BankMath>(&self, m: &M) -> (r: Result<(), ResidualAnalysisError>)
        requires
            m.repeatable(),
        ensures
            match r {
                Ok(_) => complaint(m, *self) is None,
                Err(e) => e matches ResidualAnalysisError::InvalidPowerTimeConstant(why)
                    && complaint(m, *self) == Some(why@),
            },
    {
        if !(self.fixed_tau_seconds.is_finite() && self.fixed_tau_seconds.is_positive()) {
            return Err(refuse(m, "tau_ms", self.fixed_tau_seconds));
        }
        if !(self.tau_min_seconds.is_finite() && self.tau_min_seconds.is_positive()) {
            return Err(refuse(m, "tau_min_ms", self.tau_min_seconds));
        }
        if !(self.tau_max_seconds.is_finite() && self.tau_max_seconds.is_positive()) {
            return Err(refuse(m, "tau_max_ms", self.tau_max_seconds));
        }
        if !(self.bandwidth_tau_scale.is_finite() && self.bandwidth_tau_scale.is_positive()) {
            return Err(refuse(m, "tau_scale", self.bandwidth_tau_scale));
        }
        if self.tau_max_seconds.lt(self.tau_min_seconds) {
            let mut why = String::new();
            why.append("tau_min_ms (");
            why.append(m.spelled_milli(self.tau_min_seconds).as_str());
            why.append(") must not exceed tau_max_ms (");
            why.append(m.spelled_milli(self.tau_max_seconds).as_str());
            why.append(")");
            assert(why@ =~= complaint(m, *self)->0);
            return Err(ResidualAnalysisError::InvalidPowerTimeConstant(why));
        }
        Ok(())
    }

    /// The time constant each band ends up with, in seconds.
    pub fn taus<M: BankMath>(&self, m: &M, bandwidths_hz: &[Double]) -> (r: Vec<Double>)
        requires
            m.repeatable(),
            self.mode is BandwidthRelative ==> self.tau_min_seconds.at_most(self.tau_max_seconds),
        ensures
            r@.len() == bandwidths_hz@.len(),
            forall|b: int|
                0 <= b < r@.len() ==> #[trigger] r@[b] == tau_for(m, *self, bandwidths_hz@[b]),
    {
        let mut out: Vec<Double> = Vec::new();
        let mut b: usize = 0;
        while b < bandwidths_hz.len()
            invariant
                m.repeatable(),
                b <= bandwidths_hz@.len(),
                out@.len() == b,
                forall|i: int|
                    0 <= i < b ==> #[trigger] out@[i] == tau_for(m, *self, bandwidths_hz@[i]),
            decreases bandwidths_hz@.len() - b,
        {
            let tau = match self.mode {
                ResidualPowerTimeMode::Fixed => self.fixed_tau_seconds,
                ResidualPowerTimeMode::BandwidthRelative => {
                    let t = m.over(self.bandwidth_tau_scale, bandwidths_hz[b]);
                    if t.lt(self.tau_min_seconds) {
                        self.tau_min_seconds
                    } else if self.tau_max_seconds.lt(t) {
                        self.tau_max_seconds
                    } else {
                        t
                    }
                },
            };
            out.push(tau);
            b += 1;
        }
        out
    }
}

/// Relative to the bandwidth, every time constant is between the rails.
pub proof fn law_taus_stay_between_the_rails<M: BankMath>(
    m: &M,
    c: ResidualPowerConfig,
    bandwidth: Double,
)
    requires
        c.mode is BandwidthRelative,
        c.tau_min_seconds.at_most(c.tau_max_seconds),
        !m.over_of(c.bandwidth_tau_scale, bandwidth).nan(),
    ensures
        c.tau_min_seconds.at_most(tau_for(m, c, bandwidth)),
        tau_for(m, c, bandwidth).at_most(c.tau_max_seconds),
{
}

/// The one-pole coefficient each band's detector runs with, computed once, before any sample is
/// touched.
pub fn detector_coeffs<M: BankMath>(m: &M, sample_rate: Double, taus_seconds: &[Double]) -> (r: Vec<
    Double,
>)
    requires
        m.repeatable(),
    ensures
        r@.len() == taus_seconds@.len(),
        forall|b: int|
            0 <= b < r@.len() ==> #[trigger] r@[b] == m.coefficient_of(
                sample_rate,
                taus_seconds@[b],
            ),
{
    let mut out: Vec<Double> = Vec::new();
    let mut b: usize = 0;
    while b < taus_seconds.len()
        invariant
            m.repeatable(),
            b <= taus_seconds@.len(),
            out@.len() == b,
            forall|i: int|
                0 <= i < b ==> #[trigger] out@[i] == m.coefficient_of(sample_rate, taus_seconds@[i]),
        decreases taus_seconds@.len() - b,
    {
        out.push(m.coefficient(sample_rate, taus_seconds[b]));
        b += 1;
    }
    out
}

/// A band's time constant goes inversely with its bandwidth, between the two bounds; or is the one
/// that is set.
pub proof fn law_time_constants_follow_the_bandwidth<R: Reals>(
    m: &Bands<R>,
    c: ResidualPowerConfig,
    bandwidth: Double,
)
    requires
        rounds(&m.reals),
        c.bandwidth_tau_scale.finite() && bandwidth.finite(),
        c.tau_min_seconds.finite() && c.tau_max_seconds.finite(),
        0real < c.bandwidth_tau_scale.value(),
        0real < bandwidth.value(),
        0real < c.tau_min_seconds.value() <= c.tau_max_seconds.value(),
        tame(c.bandwidth_tau_scale.value() / bandwidth.value()),
    ensures
        c.mode is Fixed ==> tau_for(m, c, bandwidth) == c.fixed_tau_seconds,
        c.mode is BandwidthRelative ==> {
            &&& tau_for(m, c, bandwidth).finite()
            &&& close(
                tau_for(m, c, bandwidth).value(),
                least(
                    most(c.bandwidth_tau_scale.value() / bandwidth.value(), c.tau_min_seconds.value()),
                    c.tau_max_seconds.value(),
                ),
                4,
            )
        },
{
    let r = &m.reals;
    let (s, b) = (c.bandwidth_tau_scale.value(), bandwidth.value());
    lemma_close_to_itself(s, 0);
    lemma_close_to_itself(b, 0);
    lemma_over(r, c.bandwidth_tau_scale, bandwidth, s, b, 0, 0);
    let t = r.over_of(c.bandwidth_tau_scale, bandwidth);
    let (lo, hi) = (c.tau_min_seconds, c.tau_max_seconds);
    lemma_close_to_itself(lo.value(), 4);
    lemma_close_to_itself(hi.value(), 4);
    lemma_in_order(t, lo);
    lemma_in_order(hi, t);
    lemma_close_most(t.value(), lo.value(), s / b, lo.value(), 4);
    lemma_close_most(most(t.value(), lo.value()), hi.value(), most(s / b, lo.value()), hi.value(), 4);
}

} // verus!
