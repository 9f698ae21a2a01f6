//! The resolved residual-analysis settings.
//!
//! The document speaks milliseconds; this speaks samples and seconds, and is validated against the
//! sample rate it will run at.

use crate::ieee::Double;
use crate::residual::book::{ErbFilterKind, ErbNormalization, ErbSpacing, ResidualStorage};
use crate::residual::erb::{center_freqs, centres, range_ok};
use crate::residual::error::ResidualAnalysisError;
use crate::residual::math::BankMath;
use crate::residual::power::{complaint, ResidualPowerConfig};
use crate::residual::{MAX_ORDER, MIN_BANDS, MIN_ORDER};
use vstd::prelude::*;

verus! {

#[derive(Clone, Copy, Debug, PartialEq, Eq, Structural)]
pub struct ErbBankConfig {
    pub bands: usize,
    pub min_freq_hz: Double,
    pub max_freq_hz: Double,
    pub spacing: ErbSpacing,
    pub filter_kind: ErbFilterKind,
    pub filter_order: usize,
    pub normalization: ErbNormalization,
}

impl ErbBankConfig {
    /// Forty-eight bands from 50 Hz to 20 kHz, of order four.
    pub open spec fn standard() -> ErbBankConfig {
        ErbBankConfig {
            bands: 48,
            min_freq_hz: Double { bits: 0x4049_0000_0000_0000 },
            max_freq_hz: Double { bits: 0x40d3_8800_0000_0000 },
            spacing: ErbSpacing::ErbRate,
            filter_kind: ErbFilterKind::Gammatone,
            filter_order: 4,
            normalization: ErbNormalization::UnitNoisePower,
        }
    }
}

impl Default for ErbBankConfig {
    fn default() -> (r: ErbBankConfig)
        ensures
            r == ErbBankConfig::standard(),
    {
        ErbBankConfig {
            bands: 48,
            min_freq_hz: Double { bits: 0x4049_0000_0000_0000 },
            max_freq_hz: Double { bits: 0x40d3_8800_0000_0000 },
            spacing: ErbSpacing::ErbRate,
            filter_kind: ErbFilterKind::Gammatone,
            filter_order: 4,
            normalization: ErbNormalization::UnitNoisePower,
        }
    }
}

/// Why a bank cannot be built whatever the sample rate, if it cannot.
pub open spec fn bank_refusal(c: ErbBankConfig) -> Option<ResidualAnalysisError> {
    if c.bands < MIN_BANDS {
        Some(ResidualAnalysisError::InvalidBandCount(c.bands))
    } else if !(MIN_ORDER <= c.filter_order <= MAX_ORDER) {
        Some(ResidualAnalysisError::UnsupportedFilterOrder(c.filter_order))
    } else if !range_ok(c.min_freq_hz, c.max_freq_hz) {
        Some(
            ResidualAnalysisError::InvalidFrequencyRange {
                min_hz: c.min_freq_hz,
                max_hz: c.max_freq_hz,
            },
        )
    } else {
        None
    }
}

impl ErbBankConfig {
    pub fn center_freqs<M: BankMath>(&self, m: &M) -> (r: Result<Vec<Double>, ResidualAnalysisError>)
        requires
            m.repeatable(),
        ensures
            match r {
                Ok(f) => self.bands > 0 && range_ok(self.min_freq_hz, self.max_freq_hz) && f@
                    == centres(m, self.bands, self.min_freq_hz, self.max_freq_hz),
                Err(e) => if self.bands == 0 {
                    e == ResidualAnalysisError::InvalidBandCount(self.bands)
                } else {
                    !range_ok(self.min_freq_hz, self.max_freq_hz) && e == (
                    ResidualAnalysisError::InvalidFrequencyRange {
                        min_hz: self.min_freq_hz,
                        max_hz: self.max_freq_hz,
                    })
                },
            },
    {
        center_freqs(m, self.bands, self.min_freq_hz, self.max_freq_hz)
    }

    /// Checks that do not need a sample rate.
    pub fn validate<M: BankMath>(&self, m: &M) -> (r: Result<(), ResidualAnalysisError>)
        requires
            m.repeatable(),
        ensures
            match r {
                Ok(_) => bank_refusal(*self) is None,
                Err(e) => bank_refusal(*self) == Some(e),
            },
    {
        if self.bands < MIN_BANDS {
            return Err(ResidualAnalysisError::InvalidBandCount(self.bands));
        }
        if self.filter_order < MIN_ORDER || self.filter_order > MAX_ORDER {
            return Err(ResidualAnalysisError::UnsupportedFilterOrder(self.filter_order));
        }
        // Also rejects non-finite bounds and an inverted range.
        match self.center_freqs(m) {
            Ok(_) => Ok(()),
            Err(e) => Err(e),
        }
    }
}

/// Residual analysis, fully resolved for one sample rate.
#[derive(Clone, Copy, Debug, PartialEq, Eq, Structural)]
pub struct ResidualAnalysisConfig {
    pub enabled: bool,
    /// The book's update period, in samples.
    pub update_samples: usize,
    pub erb: ErbBankConfig,
    pub power: ResidualPowerConfig,
    pub storage: ResidualStorage,
}

impl Default for ResidualAnalysisConfig {
    fn default() -> (r: ResidualAnalysisConfig)
        ensures
            !r.enabled,
            r.update_samples == 48,
            r.erb == ErbBankConfig::standard(),
            call_ensures(<ResidualPowerConfig as Default>::default, (), r.power),
            r.storage == ResidualStorage::F32LinearPower,
    {
        ResidualAnalysisConfig {
            enabled: false,
            update_samples: 48,
            erb: ErbBankConfig::default(),
            power: ResidualPowerConfig::default(),
            storage: ResidualStorage::F32LinearPower,
        }
    }
}

/// The error is the one the analysis is refused with.
pub open spec fn refused<M: BankMath>(
    m: &M,
    c: ResidualAnalysisConfig,
    sample_rate: Double,
    e: ResidualAnalysisError,
) -> bool {
    if !(sample_rate.finite() && sample_rate.positive()) {
        e == ResidualAnalysisError::InvalidSampleRate(sample_rate)
    } else if c.update_samples < 1 {
        e == (ResidualAnalysisError::InvalidUpdateInterval {
            update_ms: Double { bits: 0 },
            sample_rate,
        })
    } else if bank_refusal(c.erb) is Some {
        e == bank_refusal(c.erb)->0
    } else if complaint(m, c.power) is Some {
        e matches ResidualAnalysisError::InvalidPowerTimeConstant(why) && why@ == complaint(
            m,
            c.power,
        )->0
    } else if m.limit_of(sample_rate).at_most(c.erb.max_freq_hz) {
        e == (ResidualAnalysisError::FrequencyAboveNyquist {
            freq_hz: c.erb.max_freq_hz,
            nyquist_hz: m.limit_of(sample_rate),
        })
    } else {
        false
    }
}

/// The analysis can be run.
pub open spec fn runnable<M: BankMath>(m: &M, c: ResidualAnalysisConfig, sample_rate: Double) -> bool {
    &&& sample_rate.finite() && sample_rate.positive()
    &&& c.update_samples >= 1
    &&& bank_refusal(c.erb) is None
    &&& complaint(m, c.power) is None
    &&& !m.limit_of(sample_rate).at_most(c.erb.max_freq_hz)
}

impl ResidualAnalysisConfig {
    /// Everything an analysis needs, checked once, before any audio is read.
    ///
    /// A frequency above the limit is an error, never a silent clamp.
    pub fn validate<M: BankMath>(&self, m: &M, sample_rate: Double) -> (r: Result<
        (),
        ResidualAnalysisError,
    >)
        requires
            m.repeatable(),
        ensures
            match r {
                Ok(_) => runnable(m, *self, sample_rate),
                Err(e) => !runnable(m, *self, sample_rate) && refused(m, *self, sample_rate, e),
            },
    {
        if !(sample_rate.is_finite() && sample_rate.is_positive()) {
            return Err(ResidualAnalysisError::InvalidSampleRate(sample_rate));
        }
        if self.update_samples < 1 {
            return Err(
                ResidualAnalysisError::InvalidUpdateInterval {
                    update_ms: Double { bits: 0 },
                    sample_rate,
                },
            );
        }
        match self.erb.validate(m) {
            Ok(_) => {},
            Err(e) => {
                return Err(e);
            },
        }
        match self.power.validate(m) {
            Ok(_) => {},
            Err(e) => {
                return Err(e);
            },
        }
        let limit = m.limit(sample_rate);
        if self.erb.max_freq_hz.ge(limit) {
            return Err(
                ResidualAnalysisError::FrequencyAboveNyquist {
                    freq_hz: self.erb.max_freq_hz,
                    nyquist_hz: limit,
                },
            );
        }
        Ok(())
    }
}

} // verus!
