//! What can go wrong designing or running the residual analyser.
//!
//! Every variant names the field it came from and the value that was rejected: a settings document is
//! edited by hand.

use crate::ieee::Double;
use crate::residual::math::BankMath;
use crate::text::{push_number, written};
use vstd::prelude::*;

verus! {

#[derive(Debug)]
pub enum ResidualAnalysisError {
    /// Fewer bands than the bank can meaningfully cover.
    InvalidBandCount(usize),
    /// The lowest frequency is not below the highest, or one of them is not positive and finite.
    InvalidFrequencyRange { min_hz: Double, max_hz: Double },
    /// A band centre too near half the sample rate.
    FrequencyAboveNyquist { freq_hz: Double, nyquist_hz: Double },
    /// The update period rounds to zero samples, or is not positive.
    InvalidUpdateInterval { update_ms: Double, sample_rate: Double },
    /// A time constant is not positive, or the least exceeds the most.
    InvalidPowerTimeConstant(String),
    /// The filter cascade does not implement this order.
    UnsupportedFilterOrder(usize),
    /// The designed filter came out unstable or its normalisation did not converge.
    FilterDesignFailed(String),
    /// The sample rate is not a usable positive number.
    InvalidSampleRate(Double),
}

/// What an error says.
pub open spec fn told<M: BankMath>(m: &M, e: ResidualAnalysisError) -> Seq<char> {
    match e {
        ResidualAnalysisError::InvalidBandCount(n) => "residual.erb.bands = "@ + written(n as int)
            + ": at least 4 bands are needed for an ERB bank"@,
        ResidualAnalysisError::InvalidFrequencyRange { min_hz, max_hz } =>
        "residual.erb: min_freq_hz ("@ + m.spelled_of(min_hz)
            + ") must be positive and below max_freq_hz ("@ + m.spelled_of(max_hz) + ")"@,
        ResidualAnalysisError::FrequencyAboveNyquist { freq_hz, nyquist_hz } =>
        "residual.erb.max_freq_hz = "@ + m.spelled_of(freq_hz)
            + ": at this sample rate the usable limit is "@ + m.spelled_tenths_of(nyquist_hz)
            + " Hz"@,
        ResidualAnalysisError::InvalidUpdateInterval { update_ms, sample_rate } =>
        "residual.update_ms = "@ + m.spelled_of(update_ms) + ": rounds to under one sample at "@
            + m.spelled_of(sample_rate) + " Hz"@,
        ResidualAnalysisError::InvalidPowerTimeConstant(why) => "residual.power: "@ + why@,
        ResidualAnalysisError::UnsupportedFilterOrder(n) => "residual.erb.order = "@ + written(
            n as int,
        ) + ": the gammatone cascade implements orders 1..=8"@,
        ResidualAnalysisError::FilterDesignFailed(why) => "residual filter design failed: "@ + why@,
        ResidualAnalysisError::InvalidSampleRate(sr) =>
        "residual analysis needs a positive sample rate, got "@ + m.spelled_of(sr),
    }
}

impl ResidualAnalysisError {
    /// The message a user reads.
    pub fn message<M: BankMath>(&self, m: &M) -> (r: String)
        requires
            m.repeatable(),
        ensures
            r@ == told(m, *self),
    {
        let mut out = String::new();
        match self {
            ResidualAnalysisError::InvalidBandCount(n) => {
                out.append("residual.erb.bands = ");
                push_number(&mut out, *n as u64);
                out.append(": at least 4 bands are needed for an ERB bank");
            },
            ResidualAnalysisError::InvalidFrequencyRange { min_hz, max_hz } => {
                out.append("residual.erb: min_freq_hz (");
                out.append(m.spelled(*min_hz).as_str());
                out.append(") must be positive and below max_freq_hz (");
                out.append(m.spelled(*max_hz).as_str());
                out.append(")");
            },
            ResidualAnalysisError::FrequencyAboveNyquist { freq_hz, nyquist_hz } => {
                out.append("residual.erb.max_freq_hz = ");
                out.append(m.spelled(*freq_hz).as_str());
                out.append(": at this sample rate the usable limit is ");
                out.append(m.spelled_tenths(*nyquist_hz).as_str());
                out.append(" Hz");
            },
            ResidualAnalysisError::InvalidUpdateInterval { update_ms, sample_rate } => {
                out.append("residual.update_ms = ");
                out.append(m.spelled(*update_ms).as_str());
                out.append(": rounds to under one sample at ");
                out.append(m.spelled(*sample_rate).as_str());
                out.append(" Hz");
            },
            ResidualAnalysisError::InvalidPowerTimeConstant(why) => {
                out.append("residual.power: ");
                out.append(why.as_str());
            },
            ResidualAnalysisError::UnsupportedFilterOrder(n) => {
                out.append("residual.erb.order = ");
                push_number(&mut out, *n as u64);
                out.append(": the gammatone cascade implements orders 1..=8");
            },
            ResidualAnalysisError::FilterDesignFailed(why) => {
                out.append("residual filter design failed: ");
                out.append(why.as_str());
            },
            ResidualAnalysisError::InvalidSampleRate(sr) => {
                out.append("residual analysis needs a positive sample rate, got ");
                out.append(m.spelled(*sr).as_str());
            },
        }
        assert(out@ =~= told(m, *self));
        out
    }
}

} // verus!
