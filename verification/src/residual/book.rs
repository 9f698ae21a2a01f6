//! The residual book: what the analysis produces, and everything needed to read it back.
//!
//! The matrix is flat, `power[frame * band_count + band]`: one frame's worth of gains, contiguous.

use crate::ieee::{Double, Single};
use crate::residual::math::BankMath;
use crate::residual::power::ResidualPowerTimeMode;
use crate::text::{push_number, written};
use vstd::prelude::*;

verus! {

/// Bumped when the meaning of an existing field changes. Readers reject anything higher.
pub const RESIDUAL_BOOK_VERSION: u32 = 1;

/// How band centres are laid out.
#[derive(Clone, Copy, Debug, PartialEq, Eq, Structural)]
pub enum ErbSpacing {
    ErbRate,
}

#[derive(Clone, Copy, Debug, PartialEq, Eq, Structural)]
pub enum ErbFilterKind {
    Gammatone,
}

#[derive(Clone, Copy, Debug, PartialEq, Eq, Structural)]
pub enum ErbNormalization {
    /// Unit-variance white noise leaves each band with unit variance.
    UnitNoisePower,
}

/// How the stored numbers encode power.
#[derive(Clone, Copy, Debug, PartialEq, Eq, Structural)]
pub enum ResidualStorage {
    F32LinearPower,
}

impl ErbSpacing {
    /// The settings document's spelling.
    pub fn as_str(self) -> (r: &'static str)
        ensures
            r@ == "erb_rate"@,
    {
        "erb_rate"
    }
}

impl ErbFilterKind {
    /// The settings document's spelling.
    pub fn as_str(self) -> (r: &'static str)
        ensures
            r@ == "gammatone"@,
    {
        "gammatone"
    }
}

impl ErbNormalization {
    /// The settings document's spelling.
    pub fn as_str(self) -> (r: &'static str)
        ensures
            r@ == "unit_noise_power"@,
    {
        "unit_noise_power"
    }
}

impl ResidualStorage {
    /// The settings document's spelling.
    pub fn as_str(self) -> (r: &'static str)
        ensures
            r@ == "f32_linear_power"@,
    {
        "f32_linear_power"
    }
}

/// The power detector's settings as they were actually resolved, per band.
#[derive(Debug)]
pub struct ResidualPowerDescriptor {
    pub mode: ResidualPowerTimeMode,
    /// One time constant per band, in seconds.
    pub tau_seconds: Vec<Double>,
}

/// Everything a synthesis bank needs to know what the power numbers mean.
#[derive(Debug)]
pub struct ResidualErbBankDescriptor {
    pub band_count: u32,
    pub min_freq_hz: Double,
    pub max_freq_hz: Double,
    pub filter_order: u32,
    pub spacing: ErbSpacing,
    pub filter_kind: ErbFilterKind,
    pub normalization: ErbNormalization,
    pub center_freq_hz: Vec<Double>,
    pub bandwidth_hz: Vec<Double>,
    /// The measured gain each band was run with.
    pub normalization_gain: Vec<Double>,
    pub power_detector: ResidualPowerDescriptor,
}

/// A fixed-rate map of residual power over bands.
///
/// Frame `k` is the state of every band's causal power detector immediately **after** processing the
/// sample at `start_sample + k * update_samples`.
#[derive(Debug)]
pub struct ResidualBook {
    pub version: u32,
    pub sample_rate: Double,
    /// Where the analysed residual began, in samples from the file's origin.
    pub start_sample: u64,
    /// Length of the analysed residual in samples.
    pub source_samples: u64,
    pub update_samples: u32,
    pub band_count: u32,
    pub frame_count: u64,
    pub storage: ResidualStorage,
    /// `frame * band_count + band`.
    pub power: Vec<Single>,
    pub bank: ResidualErbBankDescriptor,
}

/// What is said of a list in the bank that has the wrong number of entries.
pub open spec fn ragged(name: Seq<char>, len: int, bands: int) -> Seq<char> {
    "residual book bank."@ + name + " has "@ + written(len) + " entries, expected "@ + written(bands)
}

/// Why this build cannot interpret a book, if it cannot.
pub open spec fn objection(b: ResidualBook) -> Option<Seq<char>> {
    let bands = b.band_count as int;
    let want = b.frame_count * b.band_count;
    if b.version > RESIDUAL_BOOK_VERSION {
        Some(
            "residual book version "@ + written(b.version as int)
                + " is newer than this build understands ("@ + written(1) + ")"@,
        )
    } else if b.power@.len() != want {
        Some(
            "residual book holds "@ + written(b.power@.len() as int) + " power values, expected "@
                + written(want) + " ("@ + written(b.frame_count as int) + " frames x "@ + written(
                bands,
            ) + " bands)"@,
        )
    } else if b.bank.center_freq_hz@.len() != bands {
        Some(ragged("center_freq_hz"@, b.bank.center_freq_hz@.len() as int, bands))
    } else if b.bank.bandwidth_hz@.len() != bands {
        Some(ragged("bandwidth_hz"@, b.bank.bandwidth_hz@.len() as int, bands))
    } else if b.bank.normalization_gain@.len() != bands {
        Some(ragged("normalization_gain"@, b.bank.normalization_gain@.len() as int, bands))
    } else if b.bank.power_detector.tau_seconds@.len() != bands {
        Some(
            ragged(
                "power_detector.tau_seconds"@,
                b.bank.power_detector.tau_seconds@.len() as int,
                bands,
            ),
        )
    } else if b.bank.band_count != b.band_count {
        Some(
            "residual book bank.band_count ("@ + written(b.bank.band_count as int)
                + ") disagrees with band_count ("@ + written(bands) + ")"@,
        )
    } else {
        None
    }
}

/// Append a whole number in decimal, however wide.
fn push_wide(out: &mut String, n: u128)
    ensures
        final(out)@ == old(out)@ + written(n as int),
    decreases n,
{
    if n <= u64::MAX as u128 {
        push_number(out, n as u64);
    } else {
        push_wide(out, n / 10);
        let d: u64 = (n % 10) as u64;
        push_number(out, d);
        assert(old(out)@ + written(n as int) =~= (old(out)@ + written(n as int / 10)) + written(
            n as int % 10,
        )) by {
            assert(written(n as int % 10) =~= seq![crate::text::digit_char(n as int % 10)]);
        }
    }
}

fn say_ragged(name: &str, len: usize, bands: u32) -> (r: String)
    ensures
        r@ == ragged(name@, len as int, bands as int),
{
    let mut out = String::new();
    out.append("residual book bank.");
    out.append(name);
    out.append(" has ");
    push_number(&mut out, len as u64);
    out.append(" entries, expected ");
    push_number(&mut out, bands as u64);
    assert(out@ =~= ragged(name@, len as int, bands as int));
    out
}

/// The power of the first `n` bands of a frame, added in band order.
pub open spec fn frame_sum<M: BankMath>(m: &M, frame: Seq<Single>, n: int) -> Double
    decreases n,
{
    if n <= 0 {
        (Double { bits: 0x8000_0000_0000_0000 })
    } else {
        m.plus_of(frame_sum(m, frame, n - 1), m.double_of(frame[n - 1]))
    }
}

impl ResidualBook {
    /// Frame `k` is in the matrix.
    pub open spec fn has_frame(&self, k: int) -> bool {
        0 <= k && (k + 1) * self.band_count <= self.power@.len()
    }

    pub open spec fn bands_at(&self, k: int) -> Seq<Single> {
        self.power@.subrange(k * self.band_count, (k + 1) * self.band_count)
    }

    /// One frame's bands, in band order.
    pub fn frame(&self, k: usize) -> (r: &[Single])
        requires
            self.has_frame(k as int),
        ensures
            r@ == self.bands_at(k as int),
    {
        let b: usize = self.band_count as usize;
        assert(self.power.len() == self.power@.len());
        assert((k + 1) * self.band_count == k * self.band_count + self.band_count)
            by (nonlinear_arith);
        assert(0 <= k * self.band_count) by (nonlinear_arith);
        let start: usize = k * b;
        vstd::slice::slice_subrange(self.power.as_slice(), start, start + b)
    }

    /// Sample offset of frame `k`, from the file's origin.
    pub fn frame_sample(&self, k: usize) -> (r: u64)
        requires
            self.start_sample + k * self.update_samples <= u64::MAX,
        ensures
            r == self.start_sample + k * self.update_samples,
    {
        assert(0 <= k * self.update_samples) by (nonlinear_arith);
        self.start_sample + k as u64 * self.update_samples as u64
    }

    /// Summed power across all bands at each frame: a level trace, not an energy partition.
    pub fn total_power<M: BankMath>(&self, m: &M) -> (r: Vec<Double>)
        requires
            m.repeatable(),
            self.power@.len() == self.frame_count * self.band_count,
            self.frame_count <= usize::MAX,
        ensures
            r@.len() == self.frame_count,
            forall|k: int|
                0 <= k < r@.len() ==> #[trigger] r@[k] == frame_sum(
                    m,
                    self.bands_at(k),
                    self.band_count as int,
                ),
    {
        let frames: usize = self.frame_count as usize;
        let bands: usize = self.band_count as usize;
        let mut out: Vec<Double> = Vec::new();
        let mut k: usize = 0;
        while k < frames
            invariant
                m.repeatable(),
                frames == self.frame_count,
                bands == self.band_count,
                self.power@.len() == self.frame_count * self.band_count,
                k <= frames,
                out@.len() == k,
                forall|i: int|
                    0 <= i < k ==> #[trigger] out@[i] == frame_sum(
                        m,
                        self.bands_at(i),
                        self.band_count as int,
                    ),
            decreases frames - k,
        {
            assert((k + 1) * self.band_count <= self.frame_count * self.band_count)
                by (nonlinear_arith)
                requires
                    k + 1 <= self.frame_count,
            ;
            assert((k + 1) * self.band_count == k * self.band_count + self.band_count)
                by (nonlinear_arith);
            let frame = self.frame(k);
            let mut sum = (Double { bits: 0x8000_0000_0000_0000 });
            let mut b: usize = 0;
            while b < bands
                invariant
                    m.repeatable(),
                    bands == self.band_count,
                    frame@.len() == bands,
                    b <= bands,
                    sum == frame_sum(m, frame@, b as int),
                decreases bands - b,
            {
                let p = m.double(frame[b]);
                sum = m.plus(sum, p);
                b += 1;
            }
            out.push(sum);
            k += 1;
        }
        out
    }

    /// Reject a book this build cannot interpret, and catch a truncated matrix.
    pub fn validate(&self) -> (r: Result<(), String>)
        ensures
            match r {
                Ok(_) => objection(*self) is None,
                Err(why) => objection(*self) == Some(why@),
            },
    {
        let mut out = String::new();
        if self.version > RESIDUAL_BOOK_VERSION {
            out.append("residual book version ");
            push_number(&mut out, self.version as u64);
            out.append(" is newer than this build understands (");
            push_number(&mut out, RESIDUAL_BOOK_VERSION as u64);
            out.append(")");
            assert(out@ =~= objection(*self)->0);
            return Err(out);
        }
        assert(0 <= self.frame_count * self.band_count <= 0xffff_ffff_ffff_ffff * 0xffff_ffff)
            by (nonlinear_arith)
            requires
                0 <= self.frame_count <= 0xffff_ffff_ffff_ffff,
                0 <= self.band_count <= 0xffff_ffff,
        ;
        let want: u128 = self.frame_count as u128 * self.band_count as u128;
        if self.power.len() as u128 != want {
            out.append("residual book holds ");
            push_number(&mut out, self.power.len() as u64);
            out.append(" power values, expected ");
            push_wide(&mut out, want);
            out.append(" (");
            push_number(&mut out, self.frame_count);
            out.append(" frames x ");
            push_number(&mut out, self.band_count as u64);
            out.append(" bands)");
            assert(out@ =~= objection(*self)->0);
            return Err(out);
        }
        let b: u32 = self.band_count;
        if self.bank.center_freq_hz.len() as u64 != b as u64 {
            return Err(say_ragged("center_freq_hz", self.bank.center_freq_hz.len(), b));
        }
        if self.bank.bandwidth_hz.len() as u64 != b as u64 {
            return Err(say_ragged("bandwidth_hz", self.bank.bandwidth_hz.len(), b));
        }
        if self.bank.normalization_gain.len() as u64 != b as u64 {
            return Err(say_ragged("normalization_gain", self.bank.normalization_gain.len(), b));
        }
        if self.bank.power_detector.tau_seconds.len() as u64 != b as u64 {
            return Err(
                say_ragged(
                    "power_detector.tau_seconds",
                    self.bank.power_detector.tau_seconds.len(),
                    b,
                ),
            );
        }
        if self.bank.band_count != b {
            out.append("residual book bank.band_count (");
            push_number(&mut out, self.bank.band_count as u64);
            out.append(") disagrees with band_count (");
            push_number(&mut out, b as u64);
            out.append(")");
            assert(out@ =~= objection(*self)->0);
            return Err(out);
        }
        Ok(())
    }
}

/// A book that raises no objection has every frame it counts.
pub proof fn law_a_sound_book_has_its_frames(b: ResidualBook, k: int)
    requires
        objection(b) is None,
        0 <= k < b.frame_count,
    ensures
        b.has_frame(k),
        b.bands_at(k).len() == b.band_count,
{
    assert((k + 1) * b.band_count <= b.frame_count * b.band_count) by (nonlinear_arith)
        requires
            k + 1 <= b.frame_count,
    ;
    assert((k + 1) * b.band_count == k * b.band_count + b.band_count) by (nonlinear_arith);
    assert(0 <= k * b.band_count) by (nonlinear_arith)
        requires
            k >= 0,
    ;
}

} // verus!
