//! The settings document, once read.
//!
//! Every section is optional and every field defaults, so an empty document is legal. The document
//! speaks milliseconds; the settings it resolves to speak seconds and samples.

use crate::atom::{EnvelopeParams, GaussianParams, Shape};
use crate::dict::{
    fof_grid, grid_pairs, release_refusal, voice_alphas, BlockConfig, FofError, ReleasePolicy,
};
use crate::gauss::DEFAULT_CUTOFF_LEVEL;
use crate::ieee::{Double, Single, ONE};
use crate::pursuit::MpConfig;
use crate::refine::RefineConfig;
use crate::residual::book::{ErbFilterKind, ErbNormalization, ErbSpacing, ResidualStorage};
use crate::residual::config::{
    bank_refusal, refused, runnable, ErbBankConfig, ResidualAnalysisConfig,
};
use crate::residual::error::{told, ResidualAnalysisError};
use crate::residual::math::BankMath;
use crate::residual::power::{complaint, ResidualPowerConfig, ResidualPowerTimeMode};
use crate::text::{chars_of, is_text};
use crate::units::Units;
use vstd::prelude::*;

verus! {

/// The settings document.
pub struct Config {
    pub dictionary: DictionarySettings,
    pub envelope: EnvelopeSettings,
    pub blocks: BlockSettings,
    pub pursuit: PursuitSettings,
    pub refine: RefineSettings,
    pub hrmp: HrmpSettings,
    pub residual: ResidualSettings,
}

/// The release policy, fixed for the whole analysis.
#[derive(Clone, Copy, Debug, PartialEq, Eq, Structural)]
pub struct EnvelopeSettings {
    /// Amplitude relative to peak at which the release begins.
    pub fade_level: Single,
    /// Release duration is `fade_dur_scale / alpha`, clamped to the bounds below.
    pub fade_dur_scale: Single,
    /// Clamps on the release duration, in milliseconds.
    pub fade_dur_min_ms: Single,
    pub fade_dur_max_ms: Single,
}

/// Which atoms the dictionary offers: one family per atom kind.
///
/// Blocks are built FOF family first, then Gaussian. That order is the block index a book records and
/// the tie-break selection uses.
pub struct DictionarySettings {
    pub fof: FofFamilySettings,
    pub gaussian: GaussianFamilySettings,
}

/// The FOF `(alpha, beta)` grid.
pub struct FofFamilySettings {
    /// Decay rates per second. Empty disables the family.
    pub alphas: Vec<Single>,
    /// Attack durations in milliseconds.
    pub betas_ms: Vec<Single>,
    /// Drop combinations above this.
    pub alpha_beta_max: Single,
}

impl Default for FofFamilySettings {
    /// The voice grid.
    fn default() -> (r: FofFamilySettings)
        ensures
            r.alphas@ == voice_alphas(),
            r.betas_ms@ == seq![
                Single { bits: 0x3e99_999a },
                Single { bits: 0x3f80_0000 },
                Single { bits: 0x4040_0000 },
            ],
            r.alpha_beta_max == (Single { bits: 0x4080_0000 }),
    {
        let alphas: Vec<Single> = vec![
            Single { bits: 0x42a0_0000 },
            Single { bits: 0x4300_0000 },
            Single { bits: 0x434d_0000 },
            Single { bits: 0x43a4_0000 },
            Single { bits: 0x4403_0000 },
            Single { bits: 0x4451_c000 },
            Single { bits: 0x44a7_c000 },
            Single { bits: 0x4506_3000 },
        ];
        let betas_ms: Vec<Single> = vec![
            Single { bits: 0x3e99_999a },
            Single { bits: 0x3f80_0000 },
            Single { bits: 0x4040_0000 },
        ];
        assert(alphas@ =~= voice_alphas());
        FofFamilySettings { alphas, betas_ms, alpha_beta_max: Single { bits: 0x4080_0000 } }
    }
}

/// The Gaussian `sigma` ladder.
pub struct GaussianFamilySettings {
    /// Envelope standard deviations in milliseconds. Empty disables the family.
    pub sigmas_ms: Vec<Single>,
    /// Amplitude relative to the peak at which the support is truncated.
    pub cutoff_level: Single,
}

impl Default for GaussianFamilySettings {
    /// Off.
    fn default() -> (r: GaussianFamilySettings)
        ensures
            r.sigmas_ms@.len() == 0,
            r.cutoff_level == (Single { bits: DEFAULT_CUTOFF_LEVEL }),
    {
        GaussianFamilySettings {
            sigmas_ms: Vec::new(),
            cutoff_level: Single { bits: DEFAULT_CUTOFF_LEVEL },
        }
    }
}

impl Default for DictionarySettings {
    fn default() -> (r: DictionarySettings)
        ensures
            call_ensures(<FofFamilySettings as Default>::default, (), r.fof),
            call_ensures(<GaussianFamilySettings as Default>::default, (), r.gaussian),
    {
        DictionarySettings {
            fof: FofFamilySettings::default(),
            gaussian: GaussianFamilySettings::default(),
        }
    }
}

#[derive(Clone, Copy, Debug, PartialEq, Eq, Structural)]
pub struct BlockSettings {
    /// Worst-case fraction of an atom's energy a frame must still capture when the true onset falls
    /// between hop positions.
    pub capture_tolerance: Double,
    /// Frequency range represented, in Hz.
    pub f_min: Single,
    pub f_max: Single,
    /// Bins whose coherence squared exceeds this are disabled as ill-conditioned.
    pub rho_sq_max: Single,
}

impl Default for BlockSettings {
    fn default() -> (r: BlockSettings)
        ensures
            r == (BlockSettings {
                capture_tolerance: Double { bits: 0x3fee_6666_6666_6666 },
                f_min: Single { bits: 0x4248_0000 },
                f_max: Single { bits: 0x461c_4000 },
                rho_sq_max: Single { bits: 0x3f7f_f972 },
            }),
    {
        BlockSettings {
            capture_tolerance: Double { bits: 0x3fee_6666_6666_6666 },
            f_min: Single { bits: 0x4248_0000 },
            f_max: Single { bits: 0x461c_4000 },
            rho_sq_max: Single { bits: 0x3f7f_f972 },
        }
    }
}

#[derive(Clone, Copy, Debug, PartialEq, Eq, Structural)]
pub struct PursuitSettings {
    /// Hard cap on atoms selected.
    pub max_atoms: usize,
    /// Stop once this reconstruction SNR is reached.
    pub target_snr_db: Single,
    /// Stop when the best atom would remove less than this fraction of the residual.
    pub min_gain: Double,
    /// Local maxima promoted to exact scoring each iteration.
    pub candidate_count: usize,
    /// Give up after this many consecutive iterations in which every candidate was rejected.
    pub max_stalls: usize,
    /// Frame-table budget, in MiB, that decides how long a window the pursuit analyses at once.
    pub max_memory_mb: usize,
    /// Analyse windows of exactly this many seconds, ignoring the budget. Zero means "use the
    /// budget".
    pub window_seconds: Single,
}

impl Default for PursuitSettings {
    fn default() -> (r: PursuitSettings)
        ensures
            ({
                let d = MpConfig::standard();
                r == (PursuitSettings {
                    max_atoms: d.max_atoms,
                    target_snr_db: d.target_snr_db,
                    min_gain: d.min_gain_fraction,
                    candidate_count: d.candidate_count,
                    max_stalls: d.max_stalls,
                    max_memory_mb: 1024,
                    window_seconds: Single { bits: 0 },
                })
            }),
    {
        let d = MpConfig::default();
        PursuitSettings {
            max_atoms: d.max_atoms,
            target_snr_db: d.target_snr_db,
            min_gain: d.min_gain_fraction,
            candidate_count: d.candidate_count,
            max_stalls: d.max_stalls,
            max_memory_mb: 1024,
            window_seconds: Single { bits: 0 },
        }
    }
}

/// Local refinement of a candidate after it is selected.
///
/// The frequency range, the conditioning gate and the `alpha*beta` cap are absent: they are shared
/// with the other sections, so refinement cannot wander into a region the coarse search treats as
/// dead.
#[derive(Clone, Copy, Debug, PartialEq, Eq, Structural)]
pub struct RefineSettings {
    pub enabled: bool,
    /// Passes of the search cycle.
    pub rounds: usize,
    /// Stop early when a whole round improves the fit score by less than this fraction.
    pub score_tol: Double,
    /// Golden-section evaluations per parameter.
    pub golden_iters: usize,
    /// Bounds on the refined envelope, wider than the dictionary grid at both ends.
    pub alpha_min: Single,
    pub alpha_max: Single,
    pub beta_min_ms: Single,
    pub beta_max_ms: Single,
    /// Bounds on a refined Gaussian's `sigma`.
    pub sigma_min_ms: Single,
    pub sigma_max_ms: Single,
    /// Reject any refined envelope longer than this, whatever the bounds imply.
    pub max_atom_samples: usize,
    /// Search radii around the seed: bins, then multiplicative factors, then samples.
    pub f_bracket_bins: Single,
    pub alpha_bracket: Single,
    pub beta_bracket: Single,
    pub sigma_bracket: Single,
    /// 0 derives the onset radius from the block's own hop.
    pub t0_radius: usize,
}

impl Default for RefineSettings {
    fn default() -> (r: RefineSettings)
        ensures
            ({
                let d = RefineConfig::standard();
                r == (RefineSettings {
                    enabled: d.enabled,
                    rounds: d.rounds,
                    score_tol: d.score_tol,
                    golden_iters: d.golden_iters,
                    alpha_min: d.alpha_min,
                    alpha_max: d.alpha_max,
                    beta_min_ms: Single { bits: 0x3dcc_cccd },
                    beta_max_ms: Single { bits: 0x4120_0000 },
                    sigma_min_ms: Single { bits: 0x3f00_0000 },
                    sigma_max_ms: Single { bits: 0x4348_0000 },
                    max_atom_samples: d.max_atom_samples,
                    f_bracket_bins: d.f_bracket_bins,
                    alpha_bracket: d.alpha_bracket,
                    beta_bracket: d.beta_bracket,
                    sigma_bracket: d.sigma_bracket,
                    t0_radius: d.t0_radius,
                })
            }),
    {
        let d = RefineConfig::default();
        RefineSettings {
            enabled: d.enabled,
            rounds: d.rounds,
            score_tol: d.score_tol,
            golden_iters: d.golden_iters,
            alpha_min: d.alpha_min,
            alpha_max: d.alpha_max,
            beta_min_ms: Single { bits: 0x3dcc_cccd },
            beta_max_ms: Single { bits: 0x4120_0000 },
            sigma_min_ms: Single { bits: 0x3f00_0000 },
            sigma_max_ms: Single { bits: 0x4348_0000 },
            max_atom_samples: d.max_atom_samples,
            f_bracket_bins: d.f_bracket_bins,
            alpha_bracket: d.alpha_bracket,
            beta_bracket: d.beta_bracket,
            sigma_bracket: d.sigma_bracket,
            t0_radius: d.t0_radius,
        }
    }
}

/// Whether refined candidates are validated on their local support.
#[derive(Clone, Copy, Debug, PartialEq, Eq, Structural)]
pub struct HrmpSettings {
    pub enabled: bool,
}

/// Stochastic analysis of what the pursuit could not explain. Off by default.
#[derive(Clone, Copy, Debug, PartialEq, Eq, Structural)]
pub struct ResidualSettings {
    pub enabled: bool,
    /// How often a power frame is recorded.
    pub update_ms: Double,
    /// How the stored numbers encode power.
    pub storage: ResidualStorage,
    pub erb: ResidualErbSettings,
    pub power: ResidualPowerSettings,
}

/// The analysis filter bank.
#[derive(Clone, Copy, Debug, PartialEq, Eq, Structural)]
pub struct ResidualErbSettings {
    pub bands: usize,
    pub min_freq_hz: Double,
    pub max_freq_hz: Double,
    pub spacing: ErbSpacing,
    pub filter: ErbFilterKind,
    pub order: usize,
    pub normalization: ErbNormalization,
}

/// The per-band power detector.
#[derive(Clone, Copy, Debug, PartialEq, Eq, Structural)]
pub struct ResidualPowerSettings {
    pub mode: ResidualPowerTimeMode,
    /// Used when the mode is fixed.
    pub tau_ms: Double,
    /// Used when the mode is relative to the bandwidth. Dimensionless.
    pub tau_scale: Double,
    pub tau_min_ms: Double,
    pub tau_max_ms: Double,
}

impl Default for ResidualErbSettings {
    fn default() -> (r: ResidualErbSettings)
        ensures
            r.resolved() == ErbBankConfig::standard(),
    {
        let d = ErbBankConfig::default();
        ResidualErbSettings {
            bands: d.bands,
            min_freq_hz: d.min_freq_hz,
            max_freq_hz: d.max_freq_hz,
            spacing: d.spacing,
            filter: d.filter_kind,
            order: d.filter_order,
            normalization: d.normalization,
        }
    }
}

impl Default for ResidualPowerSettings {
    /// Two milliseconds fixed; relative to the bandwidth, from half a millisecond to ten.
    fn default() -> (r: ResidualPowerSettings)
        ensures
            r == (ResidualPowerSettings {
                mode: ResidualPowerTimeMode::BandwidthRelative,
                tau_ms: Double { bits: 0x4000_0000_0000_0000 },
                tau_scale: Double { bits: ONE },
                tau_min_ms: Double { bits: 0x3fe0_0000_0000_0000 },
                tau_max_ms: Double { bits: 0x4024_0000_0000_0000 },
            }),
    {
        ResidualPowerSettings {
            mode: ResidualPowerTimeMode::BandwidthRelative,
            tau_ms: Double { bits: 0x4000_0000_0000_0000 },
            tau_scale: Double { bits: ONE },
            tau_min_ms: Double { bits: 0x3fe0_0000_0000_0000 },
            tau_max_ms: Double { bits: 0x4024_0000_0000_0000 },
        }
    }
}

impl Default for ResidualSettings {
    /// Off, at a frame a millisecond.
    fn default() -> (r: ResidualSettings)
        ensures
            !r.enabled,
            r.update_ms == (Double { bits: ONE }),
            r.storage == ResidualStorage::F32LinearPower,
            call_ensures(<ResidualErbSettings as Default>::default, (), r.erb),
            call_ensures(<ResidualPowerSettings as Default>::default, (), r.power),
    {
        ResidualSettings {
            enabled: false,
            update_ms: Double { bits: ONE },
            storage: ResidualStorage::F32LinearPower,
            erb: ResidualErbSettings::default(),
            power: ResidualPowerSettings::default(),
        }
    }
}

impl ResidualErbSettings {
    /// The settings the bank is built from.
    pub open spec fn resolved(self) -> ErbBankConfig {
        ErbBankConfig {
            bands: self.bands,
            min_freq_hz: self.min_freq_hz,
            max_freq_hz: self.max_freq_hz,
            spacing: self.spacing,
            filter_kind: self.filter,
            filter_order: self.order,
            normalization: self.normalization,
        }
    }

    pub fn resolve(&self) -> (r: ErbBankConfig)
        ensures
            r == self.resolved(),
    {
        ErbBankConfig {
            bands: self.bands,
            min_freq_hz: self.min_freq_hz,
            max_freq_hz: self.max_freq_hz,
            spacing: self.spacing,
            filter_kind: self.filter,
            filter_order: self.order,
            normalization: self.normalization,
        }
    }
}

impl ResidualPowerSettings {
    /// The settings the detectors are run with, in seconds.
    pub open spec fn resolved<U: Units>(self, u: &U) -> ResidualPowerConfig {
        ResidualPowerConfig {
            mode: self.mode,
            fixed_tau_seconds: u.seconds_double_of(self.tau_ms),
            bandwidth_tau_scale: self.tau_scale,
            tau_min_seconds: u.seconds_double_of(self.tau_min_ms),
            tau_max_seconds: u.seconds_double_of(self.tau_max_ms),
        }
    }

    pub fn resolve<U: Units>(&self, u: &U) -> (r: ResidualPowerConfig)
        requires
            u.repeatable(),
        ensures
            r == self.resolved(u),
    {
        ResidualPowerConfig {
            mode: self.mode,
            fixed_tau_seconds: u.seconds_double(self.tau_ms),
            bandwidth_tau_scale: self.tau_scale,
            tau_min_seconds: u.seconds_double(self.tau_min_ms),
            tau_max_seconds: u.seconds_double(self.tau_max_ms),
        }
    }
}

impl EnvelopeSettings {
    /// The policy in seconds.
    pub open spec fn policy<U: Units>(self, u: &U) -> ReleasePolicy {
        ReleasePolicy {
            fade_level: self.fade_level,
            fade_dur_scale: self.fade_dur_scale,
            fade_dur_min: u.seconds_of(self.fade_dur_min_ms),
            fade_dur_max: u.seconds_of(self.fade_dur_max_ms),
        }
    }

    pub fn release<U: Units>(&self, u: &U) -> (r: ReleasePolicy)
        requires
            u.repeatable(),
        ensures
            r == self.policy(u),
    {
        ReleasePolicy {
            fade_level: self.fade_level,
            fade_dur_scale: self.fade_dur_scale,
            fade_dur_min: u.seconds(self.fade_dur_min_ms),
            fade_dur_max: u.seconds(self.fade_dur_max_ms),
        }
    }
}

// ---------------------------------------------------------------------------------------------
// the shapes a document asks for
// ---------------------------------------------------------------------------------------------

/// Each number in seconds.
pub open spec fn in_seconds<U: Units>(u: &U, ms: Seq<Single>) -> Seq<Single> {
    Seq::new(ms.len(), |i: int| u.seconds_of(ms[i]))
}

/// The products of a grid, row by row.
pub open spec fn products<U: Units>(u: &U, alphas: Seq<Single>, betas: Seq<Single>) -> Seq<Single> {
    Seq::new(
        (alphas.len() * betas.len()) as nat,
        |p: int| u.product_of(alphas[p / (betas.len() as int)], betas[p % (betas.len() as int)]),
    )
}

impl FofFamilySettings {
    /// The `(alpha, beta_seconds)` pairs within the cap.
    pub open spec fn pairs<U: Units>(&self, u: &U) -> Seq<(Single, Single)> {
        let betas = in_seconds(u, self.betas_ms@);
        let all = products(u, self.alphas@, betas);
        grid_pairs(self.alphas@, betas, all, self.alpha_beta_max, all.len() as int)
    }

    /// Expand to `(alpha, beta_seconds)` pairs, dropping those past the cap.
    pub fn grid<U: Units>(&self, u: &U) -> (r: Vec<(Single, Single)>)
        requires
            u.repeatable(),
            self.alphas@.len() * self.betas_ms@.len() <= usize::MAX,
        ensures
            r@ == self.pairs(u),
    {
        let n: usize = self.betas_ms.len();
        let mut betas: Vec<Single> = Vec::new();
        let mut j: usize = 0;
        while j < n
            invariant
                u.repeatable(),
                n == self.betas_ms@.len(),
                j <= n,
                betas@ == in_seconds(u, self.betas_ms@).take(j as int),
            decreases n - j,
        {
            betas.push(u.seconds(self.betas_ms[j]));
            assert(in_seconds(u, self.betas_ms@).take(j + 1) =~= in_seconds(
                u,
                self.betas_ms@,
            ).take(j as int).push(in_seconds(u, self.betas_ms@)[j as int]));
            j += 1;
        }
        assert(in_seconds(u, self.betas_ms@).take(n as int) =~= in_seconds(u, self.betas_ms@));
        let mut all: Vec<Single> = Vec::new();
        let mut i: usize = 0;
        assert(0 * n == 0) by (nonlinear_arith);
        while i < self.alphas.len()
            invariant
                u.repeatable(),
                n == betas@.len(),
                i <= self.alphas@.len(),
                all@.len() == i * n,
                forall|p: int|
                    0 <= p < all@.len() ==> #[trigger] all@[p] == u.product_of(
                        self.alphas@[p / (n as int)],
                        betas@[p % (n as int)],
                    ),
            decreases self.alphas@.len() - i,
        {
            let mut j: usize = 0;
            while j < n
                invariant
                    u.repeatable(),
                    n == betas@.len(),
                    i < self.alphas@.len(),
                    j <= n,
                    all@.len() == i * n + j,
                    forall|p: int|
                        0 <= p < all@.len() ==> #[trigger] all@[p] == u.product_of(
                            self.alphas@[p / (n as int)],
                            betas@[p % (n as int)],
                        ),
                decreases n - j,
            {
                let v = u.product(self.alphas[i], betas[j]);
                proof {
                    vstd::arithmetic::div_mod::lemma_fundamental_div_mod_converse(
                        i * n + j,
                        n as int,
                        i as int,
                        j as int,
                    );
                }
                all.push(v);
                j += 1;
            }
            assert((i + 1) * n == i * n + n) by (nonlinear_arith);
            i += 1;
        }
        assert(all@ =~= products(u, self.alphas@, betas@));
        fof_grid(self.alphas.as_slice(), betas.as_slice(), all.as_slice(), self.alpha_beta_max)
    }
}

impl GaussianFamilySettings {
    pub open spec fn ladder<U: Units>(&self, u: &U) -> Seq<GaussianParams> {
        Seq::new(
            self.sigmas_ms@.len(),
            |i: int|
                GaussianParams {
                    sigma: u.seconds_of(self.sigmas_ms@[i]),
                    cutoff_level: self.cutoff_level,
                },
        )
    }

    pub fn shapes<U: Units>(&self, u: &U) -> (r: Vec<GaussianParams>)
        requires
            u.repeatable(),
        ensures
            r@ == self.ladder(u),
    {
        let mut out: Vec<GaussianParams> = Vec::new();
        let mut i: usize = 0;
        while i < self.sigmas_ms.len()
            invariant
                u.repeatable(),
                i <= self.sigmas_ms@.len(),
                out@ == self.ladder(u).take(i as int),
            decreases self.sigmas_ms@.len() - i,
        {
            out.push(
                GaussianParams {
                    sigma: u.seconds(self.sigmas_ms[i]),
                    cutoff_level: self.cutoff_level,
                },
            );
            assert(self.ladder(u).take(i + 1) =~= self.ladder(u).take(i as int).push(
                self.ladder(u)[i as int],
            ));
            i += 1;
        }
        assert(self.ladder(u).take(self.sigmas_ms@.len() as int) =~= self.ladder(u));
        out
    }
}

/// A FOF's shape under a release policy.
pub open spec fn released<U: Units>(u: &U, pair: (Single, Single), p: ReleasePolicy) -> Shape {
    Shape::Fof(
        EnvelopeParams {
            alpha: pair.0,
            beta: pair.1,
            fade_level: p.fade_level,
            fade_dur: u.release_of(pair.0, p),
        },
    )
}

/// The bits of the most samples an update period may span, two to the sixty-fourth.
pub const MOST_SAMPLES: u64 = 0x43f0_0000_0000_0000;

impl Config {
    /// Every block shape the dictionary will hold, FOF family first.
    pub open spec fn all_shapes<U: Units>(&self, u: &U) -> Seq<Shape> {
        let pairs = self.dictionary.fof.pairs(u);
        let ladder = self.dictionary.gaussian.ladder(u);
        Seq::new(pairs.len(), |i: int| released(u, pairs[i], self.envelope.policy(u))) + Seq::new(
            ladder.len(),
            |i: int| Shape::Gaussian(ladder[i]),
        )
    }

    /// Every block shape the dictionary will hold, FOF family first.
    pub fn dictionary_shapes<U: Units>(&self, u: &U) -> (r: Vec<Shape>)
        requires
            u.repeatable(),
            self.dictionary.fof.alphas@.len() * self.dictionary.fof.betas_ms@.len() <= usize::MAX,
        ensures
            r@ == self.all_shapes(u),
    {
        let release = self.envelope.release(u);
        let pairs = self.dictionary.fof.grid(u);
        let ladder = self.dictionary.gaussian.shapes(u);
        let ghost fofs = Seq::new(
            pairs@.len(),
            |i: int| released(u, pairs@[i], self.envelope.policy(u)),
        );
        let ghost gaussians = Seq::new(ladder@.len(), |i: int| Shape::Gaussian(ladder@[i]));
        let mut out: Vec<Shape> = Vec::new();
        let mut i: usize = 0;
        while i < pairs.len()
            invariant
                u.repeatable(),
                release == self.envelope.policy(u),
                fofs == Seq::new(
                    pairs@.len(),
                    |i: int| released(u, pairs@[i], self.envelope.policy(u)),
                ),
                i <= pairs@.len(),
                out@ == fofs.take(i as int),
            decreases pairs@.len() - i,
        {
            let (alpha, beta) = pairs[i];
            out.push(
                Shape::Fof(
                    EnvelopeParams {
                        alpha,
                        beta,
                        fade_level: release.fade_level,
                        fade_dur: u.release(alpha, release),
                    },
                ),
            );
            assert(fofs.take(i + 1) =~= fofs.take(i as int).push(fofs[i as int]));
            i += 1;
        }
        let mut j: usize = 0;
        assert(fofs.take(pairs@.len() as int) =~= fofs);
        assert(fofs + gaussians.take(0) =~= fofs);
        while j < ladder.len()
            invariant
                gaussians == Seq::new(ladder@.len(), |i: int| Shape::Gaussian(ladder@[i])),
                j <= ladder@.len(),
                out@ == fofs + gaussians.take(j as int),
            decreases ladder@.len() - j,
        {
            out.push(Shape::Gaussian(ladder[j]));
            assert(fofs + gaussians.take(j + 1) =~= (fofs + gaussians.take(j as int)).push(
                gaussians[j as int],
            ));
            j += 1;
        }
        assert(gaussians.take(ladder@.len() as int) =~= gaussians);
        out
    }

    /// Block settings with the release policy folded in.
    pub open spec fn blocks_config<U: Units>(&self, u: &U) -> BlockConfig {
        BlockConfig {
            capture_tol: self.blocks.capture_tolerance,
            f_min: self.blocks.f_min,
            f_max: self.blocks.f_max,
            rho_sq_max: self.blocks.rho_sq_max,
            release: self.envelope.policy(u),
        }
    }

    /// Block settings with the release policy folded in.
    pub fn block_config<U: Units>(&self, u: &U) -> (r: BlockConfig)
        requires
            u.repeatable(),
        ensures
            r == self.blocks_config(u),
    {
        BlockConfig {
            capture_tol: self.blocks.capture_tolerance,
            f_min: self.blocks.f_min,
            f_max: self.blocks.f_max,
            rho_sq_max: self.blocks.rho_sq_max,
            release: self.envelope.release(u),
        }
    }

    /// The pursuit's settings, refinement's with them.
    pub open spec fn pursuit_config<U: Units>(&self, u: &U) -> MpConfig {
        let r = self.refine;
        MpConfig {
            max_atoms: self.pursuit.max_atoms,
            target_snr_db: self.pursuit.target_snr_db,
            min_gain_fraction: self.pursuit.min_gain,
            candidate_count: self.pursuit.candidate_count,
            refine: RefineConfig {
                enabled: r.enabled,
                rounds: r.rounds,
                score_tol: r.score_tol,
                golden_iters: r.golden_iters,
                f_min: self.blocks.f_min,
                f_max: self.blocks.f_max,
                alpha_min: r.alpha_min,
                alpha_max: r.alpha_max,
                beta_min: u.seconds_of(r.beta_min_ms),
                beta_max: u.seconds_of(r.beta_max_ms),
                alpha_beta_max: self.dictionary.fof.alpha_beta_max,
                sigma_min: u.seconds_of(r.sigma_min_ms),
                sigma_max: u.seconds_of(r.sigma_max_ms),
                max_atom_samples: r.max_atom_samples,
                f_bracket_bins: r.f_bracket_bins,
                alpha_bracket: r.alpha_bracket,
                beta_bracket: r.beta_bracket,
                sigma_bracket: r.sigma_bracket,
                t0_radius: r.t0_radius,
                rho_sq_max: u.widen_of(self.blocks.rho_sq_max),
            },
            hrmp: self.hrmp.enabled,
            max_stalls: self.pursuit.max_stalls,
            full_update: false,
        }
    }

    /// Pursuit settings with refinement's folded in.
    ///
    /// The frequency range, conditioning gate and `alpha*beta` cap are copied from the sections that
    /// already own them, so the coarse and refined paths cannot disagree about which parameters are
    /// representable.
    pub fn mp_config<U: Units>(&self, u: &U) -> (r: MpConfig)
        requires
            u.repeatable(),
        ensures
            r == self.pursuit_config(u),
    {
        let r = self.refine;
        MpConfig {
            max_atoms: self.pursuit.max_atoms,
            target_snr_db: self.pursuit.target_snr_db,
            min_gain_fraction: self.pursuit.min_gain,
            candidate_count: self.pursuit.candidate_count,
            refine: RefineConfig {
                enabled: r.enabled,
                rounds: r.rounds,
                score_tol: r.score_tol,
                golden_iters: r.golden_iters,
                f_min: self.blocks.f_min,
                f_max: self.blocks.f_max,
                alpha_min: r.alpha_min,
                alpha_max: r.alpha_max,
                beta_min: u.seconds(r.beta_min_ms),
                beta_max: u.seconds(r.beta_max_ms),
                alpha_beta_max: self.dictionary.fof.alpha_beta_max,
                sigma_min: u.seconds(r.sigma_min_ms),
                sigma_max: u.seconds(r.sigma_max_ms),
                max_atom_samples: r.max_atom_samples,
                f_bracket_bins: r.f_bracket_bins,
                alpha_bracket: r.alpha_bracket,
                beta_bracket: r.beta_bracket,
                sigma_bracket: r.sigma_bracket,
                t0_radius: r.t0_radius,
                rho_sq_max: u.widen(self.blocks.rho_sq_max),
            },
            hrmp: self.hrmp.enabled,
            max_stalls: self.pursuit.max_stalls,
            full_update: false,
        }
    }

    /// The residual analysis a document asks for at a sample rate of `update` samples a frame.
    pub open spec fn residual_at<U: Units>(&self, u: &U, update: usize) -> ResidualAnalysisConfig {
        ResidualAnalysisConfig {
            enabled: self.residual.enabled,
            update_samples: update,
            erb: self.residual.erb.resolved(),
            power: self.residual.power.resolved(u),
            storage: self.residual.storage,
        }
    }

    /// Residual settings resolved against the sample rate the analysis will actually run at.
    ///
    /// Fails rather than clamps: an update period under a sample is not a request for a one-sample
    /// interval.
    pub fn residual_config<U: Units, M: BankMath>(&self, u: &U, m: &M, sample_rate: Double) -> (r: Result<
        ResidualAnalysisConfig,
        ResidualAnalysisError,
    >)
        requires
            u.repeatable(),
            m.repeatable(),
        ensures
            ({
                let ms = self.residual.update_ms;
                let update = u.updates_of(ms, sample_rate);
                let cfg = self.residual_at(u, u.whole_of(update));
                if !(ms.finite() && ms.positive()) || !(Double { bits: ONE }).at_most(update)
                    || !update.at_most(Double { bits: MOST_SAMPLES }) {
                    r == Err::<ResidualAnalysisConfig, ResidualAnalysisError>(
                        ResidualAnalysisError::InvalidUpdateInterval {
                            update_ms: ms,
                            sample_rate,
                        },
                    )
                } else {
                    match r {
                        Ok(c) => c == cfg && runnable(m, cfg, sample_rate),
                        Err(e) => !runnable(m, cfg, sample_rate) && refused(m, cfg, sample_rate, e),
                    }
                }
            }),
    {
        let ms = self.residual.update_ms;
        if !(ms.is_finite() && ms.is_positive()) {
            return Err(
                ResidualAnalysisError::InvalidUpdateInterval { update_ms: ms, sample_rate },
            );
        }
        let update = u.updates(ms, sample_rate);
        if !update.ge(Double { bits: ONE }) || !update.le(Double { bits: MOST_SAMPLES }) {
            return Err(
                ResidualAnalysisError::InvalidUpdateInterval { update_ms: ms, sample_rate },
            );
        }
        let cfg = ResidualAnalysisConfig {
            enabled: self.residual.enabled,
            update_samples: u.whole(update),
            erb: self.residual.erb.resolve(),
            power: self.residual.power.resolve(u),
            storage: self.residual.storage,
        };
        match cfg.validate(m, sample_rate) {
            Ok(_) => Ok(cfg),
            Err(e) => Err(e),
        }
    }
}

// ---------------------------------------------------------------------------------------------
// whether a document can be used
// ---------------------------------------------------------------------------------------------

/// The first of the values from `from` on that is not a positive number, or their count.
pub open spec fn first_unusable(v: Seq<Single>, from: int) -> int
    decreases v.len() - from,
{
    if from >= v.len() || !(v[from].finite() && v[from].above_zero()) {
        from
    } else {
        first_unusable(v, from + 1)
    }
}

/// Why a document cannot be used, if it cannot: the first complaint in a fixed order.
pub open spec fn settings_refusal<U: Units, M: BankMath>(u: &U, m: &M, c: Config) -> Option<Seq<char>> {
    let g = c.dictionary.gaussian;
    let r = c.refine;
    let bad = first_unusable(g.sigmas_ms@, 0);
    if c.all_shapes(u).len() == 0 {
        Some(
            "dictionary is empty: [dictionary.fof] (alphas, betas_ms, alpha_beta_max) and [dictionary.gaussian] (sigmas_ms) give no shapes between them"@,
        )
    } else if bad < g.sigmas_ms@.len() {
        Some(
            "[dictionary.gaussian] sigmas_ms must be positive, got "@ + u.spelled_of(
                g.sigmas_ms@[bad],
            ),
        )
    } else if !(g.cutoff_level.above_zero() && g.cutoff_level.less(Single { bits: 0x3f80_0000 })) {
        Some(
            "[dictionary.gaussian] cutoff_level must be in (0, 1), got "@ + u.spelled_of(
                g.cutoff_level,
            ),
        )
    } else if !(r.sigma_min_ms.above_zero() && r.sigma_min_ms.at_most(r.sigma_max_ms)
        && r.sigma_max_ms.finite()) {
        Some(
            "[refine] needs 0 < sigma_min_ms <= sigma_max_ms, got "@ + u.spelled_of(r.sigma_min_ms)
                + " and "@ + u.spelled_of(r.sigma_max_ms),
        )
    } else if !c.blocks.f_min.less(c.blocks.f_max) || !c.blocks.f_min.finite() {
        Some(
            "f_min ("@ + u.spelled_of(c.blocks.f_min) + ") must be below f_max ("@ + u.spelled_of(
                c.blocks.f_max,
            ) + ")"@,
        )
    } else if !(c.blocks.capture_tolerance.positive() && c.blocks.capture_tolerance.less(
        Double { bits: ONE },
    )) {
        Some("capture_tolerance must be in (0, 1)"@)
    } else if c.pursuit.max_memory_mb == 0 {
        Some("pursuit.max_memory_mb must be at least 1"@)
    } else if !(c.pursuit.window_seconds.finite() && (Single { bits: 0 }).at_most(
        c.pursuit.window_seconds,
    )) {
        Some(
            "pursuit.window_seconds must be 0 (use max_memory_mb) or a positive number of seconds, got "@
                + u.spelled_of(c.pursuit.window_seconds),
        )
    } else if release_refusal(c.envelope.policy(u)) is Some {
        Some("[envelope]: "@ + release_refusal(c.envelope.policy(u))->0)
    } else if !c.residual.enabled {
        None
    } else if bank_refusal(c.residual.erb.resolved()) is Some {
        Some(told(m, bank_refusal(c.residual.erb.resolved())->0))
    } else if complaint(m, c.residual.power.resolved(u)) is Some {
        Some("residual.power: "@ + complaint(m, c.residual.power.resolved(u))->0)
    } else if !(c.residual.update_ms.finite() && c.residual.update_ms.positive()) {
        Some(
            "residual.update_ms must be a positive number of milliseconds, got "@ + m.spelled_of(
                c.residual.update_ms,
            ),
        )
    } else {
        None
    }
}

fn join2(a: &str, b: &str) -> (r: String)
    ensures
        r@ == a@ + b@,
{
    let mut out = String::new();
    out.append(a);
    out.append(b);
    assert(out@ =~= a@ + b@);
    out
}

impl Config {
    /// Reject settings that would produce an unusable dictionary before any work starts.
    pub fn validate<U: Units, M: BankMath>(&self, u: &U, m: &M) -> (r: Result<(), String>)
        requires
            u.repeatable(),
            m.repeatable(),
            self.dictionary.fof.alphas@.len() * self.dictionary.fof.betas_ms@.len() <= usize::MAX,
        ensures
            match r {
                Ok(_) => settings_refusal(u, m, *self) is None,
                Err(why) => settings_refusal(u, m, *self) == Some(why@),
            },
    {
        let shapes = self.dictionary_shapes(u);
        if shapes.len() == 0 {
            return Err(
                "dictionary is empty: [dictionary.fof] (alphas, betas_ms, alpha_beta_max) and [dictionary.gaussian] (sigmas_ms) give no shapes between them".to_owned(),
            );
        }
        let g = &self.dictionary.gaussian;
        let mut i: usize = 0;
        while i < g.sigmas_ms.len() && g.sigmas_ms[i].is_finite() && g.sigmas_ms[i].is_above_zero()
            invariant
                i <= g.sigmas_ms@.len(),
                first_unusable(g.sigmas_ms@, 0) == first_unusable(g.sigmas_ms@, i as int),
            decreases g.sigmas_ms@.len() - i,
        {
            i += 1;
        }
        if i < g.sigmas_ms.len() {
            return Err(
                join2(
                    "[dictionary.gaussian] sigmas_ms must be positive, got ",
                    u.spelled(g.sigmas_ms[i]).as_str(),
                ),
            );
        }
        if !(g.cutoff_level.is_above_zero() && g.cutoff_level.lt(Single { bits: 0x3f80_0000 })) {
            return Err(
                join2(
                    "[dictionary.gaussian] cutoff_level must be in (0, 1), got ",
                    u.spelled(g.cutoff_level).as_str(),
                ),
            );
        }
        let r = &self.refine;
        if !(r.sigma_min_ms.is_above_zero() && r.sigma_min_ms.le(r.sigma_max_ms)
            && r.sigma_max_ms.is_finite()) {
            let mut why = join2(
                "[refine] needs 0 < sigma_min_ms <= sigma_max_ms, got ",
                u.spelled(r.sigma_min_ms).as_str(),
            );
            why.append(" and ");
            why.append(u.spelled(r.sigma_max_ms).as_str());
            return Err(why);
        }
        if !self.blocks.f_min.lt(self.blocks.f_max) || !self.blocks.f_min.is_finite() {
            let mut why = join2("f_min (", u.spelled(self.blocks.f_min).as_str());
            why.append(") must be below f_max (");
            why.append(u.spelled(self.blocks.f_max).as_str());
            why.append(")");
            return Err(why);
        }
        if !(self.blocks.capture_tolerance.is_positive() && self.blocks.capture_tolerance.lt(
            Double { bits: ONE },
        )) {
            return Err("capture_tolerance must be in (0, 1)".to_owned());
        }
        if self.pursuit.max_memory_mb == 0 {
            return Err("pursuit.max_memory_mb must be at least 1".to_owned());
        }
        if !(self.pursuit.window_seconds.is_finite() && (Single { bits: 0 }).le(
            self.pursuit.window_seconds,
        )) {
            return Err(
                join2(
                    "pursuit.window_seconds must be 0 (use max_memory_mb) or a positive number of seconds, got ",
                    u.spelled(self.pursuit.window_seconds).as_str(),
                ),
            );
        }
        let release = self.envelope.release(u);
        match release.validate() {
            Ok(_) => {},
            Err(FofError::Invalid(why)) => {
                return Err(join2("[envelope]: ", why));
            },
            Err(FofError::SilentGrain) => {},
        }
        // Only when the stage will run. The checks that need a sample rate are made when one is
        // known; these are the ones a settings document can be judged on by itself.
        if self.residual.enabled {
            match self.residual.erb.resolve().validate(m) {
                Ok(_) => {},
                Err(e) => {
                    return Err(e.message(m));
                },
            }
            match self.residual.power.resolve(u).validate(m) {
                Ok(_) => {},
                Err(e) => {
                    return Err(e.message(m));
                },
            }
            if !(self.residual.update_ms.is_finite() && self.residual.update_ms.is_positive()) {
                return Err(
                    join2(
                        "residual.update_ms must be a positive number of milliseconds, got ",
                        m.spelled(self.residual.update_ms).as_str(),
                    ),
                );
            }
        }
        Ok(())
    }
}

// ---------------------------------------------------------------------------------------------
// reading the document
// ---------------------------------------------------------------------------------------------

/// The sections of a document: each top-level key, with its own keys where it is a table.
pub open spec fn sections(doc: Seq<(String, Option<Vec<String>>)>) -> Seq<
    (Seq<char>, Option<Seq<Seq<char>>>),
> {
    Seq::new(
        doc.len(),
        |i: int|
            (
                doc[i].0@,
                match doc[i].1 {
                    Some(keys) => Some(Seq::new(keys@.len(), |j: int| keys@[j]@)),
                    None => None,
                },
            ),
    )
}

/// The sections a text reads as, or what is wrong with it.
pub uninterp spec fn outlined(text: Seq<char>) -> Result<
    Seq<(Seq<char>, Option<Seq<Seq<char>>>)>,
    Seq<char>,
>;

/// `toml::from_str`, into a table, of which the keys are handed out: each top-level key, with its own
/// keys where its value is a table. A text that is not a document gives the parser's message. Which
/// texts are documents is the parser's to say, and nothing is claimed of it beyond that the same text
/// always reads the same.
#[verifier::external_body]
fn outline(text: &str) -> (r: Result<Vec<(String, Option<Vec<String>>)>, String>)
    ensures
        match (r, outlined(text@)) {
            (Ok(doc), Ok(want)) => sections(doc@) == want,
            (Err(why), Err(want)) => why@ == want,
            _ => false,
        },
{
    let table: toml::Table = toml::from_str(text).map_err(|e: toml::de::Error| e.to_string())?;
    Ok(table.iter()
        .map(|(k, v)| (k.clone(), v.as_table().map(|t| t.keys().cloned().collect())))
        .collect())
}

/// The first key that moved, of those the dictionary section once held itself.
pub open spec fn moved_key(keys: Seq<Seq<char>>) -> Option<Seq<char>> {
    if keys.contains("alphas"@) {
        Some("alphas"@)
    } else if keys.contains("betas_ms"@) {
        Some("betas_ms"@)
    } else if keys.contains("alpha_beta_max"@) {
        Some("alpha_beta_max"@)
    } else {
        None
    }
}

/// Where a section stands among others, or their count.
pub open spec fn section_at(
    doc: Seq<(Seq<char>, Option<Seq<Seq<char>>>)>,
    name: Seq<char>,
    from: int,
) -> int
    decreases doc.len() - from,
{
    if from >= doc.len() || doc[from].0 == name {
        from
    } else {
        section_at(doc, name, from + 1)
    }
}

/// What a reader of an old document is told.
pub open spec fn directions(key: Seq<char>) -> Seq<char> {
    "[dictionary] "@ + key
        + " has moved to [dictionary.fof]: the dictionary now holds one family per atom kind ([dictionary.fof], [dictionary.gaussian]), so put a [dictionary.fof] header above alphas, betas_ms and alpha_beta_max"@
}

/// Why a document's sections are refused, if they are: the dictionary section holds a key that is a
/// family's own.
pub open spec fn sections_refusal(doc: Seq<(Seq<char>, Option<Seq<Seq<char>>>)>) -> Option<Seq<char>> {
    let at = section_at(doc, "dictionary"@, 0);
    if at < doc.len() && doc[at].1 is Some && moved_key(doc[at].1->0) is Some {
        Some(directions(moved_key(doc[at].1->0)->0))
    } else {
        None
    }
}

fn holds(keys: &[String], name: &str) -> (r: bool)
    ensures
        r == Seq::new(keys@.len(), |j: int| keys@[j]@).contains(name@),
{
    let ghost all = Seq::new(keys@.len(), |j: int| keys@[j]@);
    let mut i: usize = 0;
    while i < keys.len()
        invariant
            i <= keys@.len(),
            all == Seq::new(keys@.len(), |j: int| keys@[j]@),
            forall|j: int| 0 <= j < i ==> #[trigger] all[j] != name@,
        decreases keys@.len() - i,
    {
        let chars = chars_of(keys[i].as_str());
        if is_text(chars.as_slice(), name) {
            assert(all[i as int] == name@);
            return true;
        }
        i += 1;
    }
    false
}

/// Judge a document by its sections.
///
/// A document written before the dictionary held more than one family puts the first family's keys
/// directly under it. The move is named, rather than called an unknown field.
pub fn check_sections(doc: &[(String, Option<Vec<String>>)]) -> (r: Result<(), String>)
    ensures
        match r {
            Ok(_) => sections_refusal(sections(doc@)) is None,
            Err(why) => sections_refusal(sections(doc@)) == Some(why@),
        },
{
    let ghost all = sections(doc@);
    let mut at: usize = 0;
    while at < doc.len()
        invariant
            at <= doc@.len(),
            all == sections(doc@),
            section_at(all, "dictionary"@, 0) == section_at(all, "dictionary"@, at as int),
        decreases doc@.len() - at,
    {
        let chars = chars_of(doc[at].0.as_str());
        if is_text(chars.as_slice(), "dictionary") {
            assert(all[at as int].0 == "dictionary"@);
            return match &doc[at].1 {
                None => Ok(()),
                Some(keys) => {
                    let key = if holds(keys.as_slice(), "alphas") {
                        "alphas"
                    } else if holds(keys.as_slice(), "betas_ms") {
                        "betas_ms"
                    } else if holds(keys.as_slice(), "alpha_beta_max") {
                        "alpha_beta_max"
                    } else {
                        return Ok(());
                    };
                    let mut why = join2("[dictionary] ", key);
                    why.append(
                        " has moved to [dictionary.fof]: the dictionary now holds one family per atom kind ([dictionary.fof], [dictionary.gaussian]), so put a [dictionary.fof] header above alphas, betas_ms and alpha_beta_max",
                    );
                    Err(why)
                },
            };
        }
        at += 1;
    }
    Ok(())
}

/// Judge a settings document before its fields are read.
pub fn check_document(text: &str) -> (r: Result<(), String>)
    ensures
        match outlined(text@) {
            Err(why) => r matches Err(said) && said@ == why,
            Ok(doc) => match r {
                Ok(_) => sections_refusal(doc) is None,
                Err(said) => sections_refusal(doc) == Some(said@),
            },
        },
{
    match outline(text) {
        Ok(doc) => check_sections(doc.as_slice()),
        Err(why) => Err(why),
    }
}

// ---------------------------------------------------------------------------------------------
// laws
// ---------------------------------------------------------------------------------------------

/// The coarse search and refinement agree about what can be represented: they share the frequency
/// range, the conditioning gate and the `alpha*beta` cap.
pub proof fn law_search_and_refinement_agree<U: Units>(u: &U, c: Config)
    ensures
        c.pursuit_config(u).refine.f_min == c.blocks.f_min,
        c.pursuit_config(u).refine.f_max == c.blocks.f_max,
        c.pursuit_config(u).refine.rho_sq_max == u.widen_of(c.blocks.rho_sq_max),
        c.pursuit_config(u).refine.alpha_beta_max == c.dictionary.fof.alpha_beta_max,
{
}

/// The FOF family's blocks come before the Gaussian family's.
pub proof fn law_fofs_come_first<U: Units>(u: &U, c: Config, i: int)
    requires
        0 <= i < c.all_shapes(u).len(),
    ensures
        c.all_shapes(u)[i] is Fof <==> i < c.dictionary.fof.pairs(u).len(),
{
}

/// A FOF is one the document asks for: the pairing of its decay rates and attacks, under the document's
/// release, and within its cap.
pub open spec fn is_asked_fof<U: Units>(u: &U, c: Config, a: int, b: int, s: Shape) -> bool {
    let fof = c.dictionary.fof;
    &&& 0 <= a < fof.alphas@.len()
    &&& 0 <= b < fof.betas_ms@.len()
    &&& u.product_of(fof.alphas@[a], u.seconds_of(fof.betas_ms@[b])).at_most(fof.alpha_beta_max)
    &&& s matches Shape::Fof(p) && {
        &&& p.alpha == fof.alphas@[a]
        &&& p.beta == u.seconds_of(fof.betas_ms@[b])
        &&& p.fade_level == c.envelope.fade_level
        &&& p.fade_dur == u.release_of(fof.alphas@[a], c.envelope.policy(u))
    }
}

/// A pair of a grid comes from one of its places, and is within the cap.
proof fn lemma_a_pair_has_a_place(
    alphas: Seq<Single>,
    betas: Seq<Single>,
    product: Seq<Single>,
    cap: Single,
    n: int,
    i: int,
) -> (p: int)
    requires
        0 <= i < grid_pairs(alphas, betas, product, cap, n).len(),
    ensures
        0 <= p < n,
        product[p].at_most(cap),
        grid_pairs(alphas, betas, product, cap, n)[i] == (
            alphas[p / betas.len() as int],
            betas[p % betas.len() as int],
        ),
    decreases n,
{
    let rest = grid_pairs(alphas, betas, product, cap, n - 1);
    if i < rest.len() {
        lemma_a_pair_has_a_place(alphas, betas, product, cap, n - 1, i)
    } else {
        n - 1
    }
}

/// A place of a grid within the cap has its pair.
proof fn lemma_a_place_has_its_pair(
    alphas: Seq<Single>,
    betas: Seq<Single>,
    product: Seq<Single>,
    cap: Single,
    n: int,
    p: int,
) -> (i: int)
    requires
        0 <= p < n,
        product[p].at_most(cap),
    ensures
        0 <= i < grid_pairs(alphas, betas, product, cap, n).len(),
        grid_pairs(alphas, betas, product, cap, n)[i] == (
            alphas[p / betas.len() as int],
            betas[p % betas.len() as int],
        ),
    decreases n,
{
    if p == n - 1 {
        grid_pairs(alphas, betas, product, cap, n - 1).len() as int
    } else {
        lemma_a_place_has_its_pair(alphas, betas, product, cap, n - 1, p)
    }
}

/// The dictionary holds no shape the document does not ask for: each is one of its pairings of a decay
/// rate and an attack, or one of its widths.
pub proof fn law_no_shape_is_made_up<U: Units>(u: &U, c: Config, i: int)
    requires
        0 <= i < c.all_shapes(u).len(),
    ensures
        match c.all_shapes(u)[i] {
            Shape::Fof(p) => exists|a: int, b: int| #[trigger]
                is_asked_fof(u, c, a, b, c.all_shapes(u)[i]),
            Shape::Gaussian(g) => g.cutoff_level == c.dictionary.gaussian.cutoff_level && exists|j: int|
                0 <= j < c.dictionary.gaussian.sigmas_ms@.len() && g.sigma == u.seconds_of(
                    #[trigger] c.dictionary.gaussian.sigmas_ms@[j],
                ),
        },
{
    let fof = c.dictionary.fof;
    let pairs = fof.pairs(u);
    if i < pairs.len() {
        let betas = in_seconds(u, fof.betas_ms@);
        let all = products(u, fof.alphas@, betas);
        let n = betas.len() as int;
        let p = lemma_a_pair_has_a_place(fof.alphas@, betas, all, fof.alpha_beta_max, all.len() as int, i);
        let (a, b) = (p / n, p % n);
        assert(n > 0) by (nonlinear_arith)
            requires
                0 <= p < fof.alphas@.len() * n,
                n >= 0,
        ;
        vstd::arithmetic::div_mod::lemma_multiply_divide_lt(p, n, fof.alphas@.len() as int);
        vstd::arithmetic::div_mod::lemma_div_pos_is_pos(p, n);
        vstd::arithmetic::div_mod::lemma_mod_bound(p, n);
        assert(is_asked_fof(u, c, a, b, c.all_shapes(u)[i]));
    } else {
        let j = i - pairs.len();
        assert(c.dictionary.gaussian.ladder(u)[j].sigma == u.seconds_of(
            c.dictionary.gaussian.sigmas_ms@[j],
        ));
    }
}

/// Every pairing of the document's decay rates and attacks that is within its cap is in the dictionary.
pub proof fn law_every_pairing_in_the_cap_is_held<U: Units>(u: &U, c: Config, a: int, b: int)
    requires
        0 <= a < c.dictionary.fof.alphas@.len(),
        0 <= b < c.dictionary.fof.betas_ms@.len(),
        u.product_of(
            c.dictionary.fof.alphas@[a],
            u.seconds_of(c.dictionary.fof.betas_ms@[b]),
        ).at_most(c.dictionary.fof.alpha_beta_max),
    ensures
        exists|i: int|
            0 <= i < c.all_shapes(u).len() && is_asked_fof(u, c, a, b, #[trigger] c.all_shapes(u)[i]),
{
    let fof = c.dictionary.fof;
    let betas = in_seconds(u, fof.betas_ms@);
    let all = products(u, fof.alphas@, betas);
    let n = betas.len() as int;
    let p = a * n + b;
    vstd::arithmetic::div_mod::lemma_fundamental_div_mod_converse(p, n, a, b);
    assert(0 <= p < fof.alphas@.len() * n) by (nonlinear_arith)
        requires
            p == a * n + b,
            0 <= b < n,
            0 <= a < fof.alphas@.len(),
    ;
    assert(all[p] == u.product_of(fof.alphas@[a], betas[b]));
    let i = lemma_a_place_has_its_pair(fof.alphas@, betas, all, fof.alpha_beta_max, all.len() as int, p);
    assert(fof.pairs(u)[i] == (fof.alphas@[a], betas[b]));
    assert(is_asked_fof(u, c, a, b, c.all_shapes(u)[i]));
}

/// Every width the document asks for is in the dictionary, after the FOFs and in its order.
pub proof fn law_every_width_is_held<U: Units>(u: &U, c: Config, j: int)
    requires
        0 <= j < c.dictionary.gaussian.sigmas_ms@.len(),
    ensures
        c.all_shapes(u)[c.all_shapes(u).len() - c.dictionary.gaussian.sigmas_ms@.len() + j]
            == Shape::Gaussian(
            GaussianParams {
                sigma: u.seconds_of(c.dictionary.gaussian.sigmas_ms@[j]),
                cutoff_level: c.dictionary.gaussian.cutoff_level,
            },
        ),
{
}

/// What a document says of the pursuit is what the pursuit gets, and its times are in seconds.
pub proof fn law_settings_reach_the_pursuit<U: Units>(u: &U, c: Config)
    ensures
        ({
            let p = c.pursuit_config(u);
            &&& p.max_atoms == c.pursuit.max_atoms
            &&& p.target_snr_db == c.pursuit.target_snr_db
            &&& p.min_gain_fraction == c.pursuit.min_gain
            &&& p.candidate_count == c.pursuit.candidate_count
            &&& p.max_stalls == c.pursuit.max_stalls
            &&& p.hrmp == c.hrmp.enabled
            &&& !p.full_update
        }),
        ({
            let (p, d) = (c.pursuit_config(u).refine, c.refine);
            &&& p.enabled == d.enabled
            &&& p.rounds == d.rounds
            &&& p.score_tol == d.score_tol
            &&& p.golden_iters == d.golden_iters
            &&& p.max_atom_samples == d.max_atom_samples
            &&& p.t0_radius == d.t0_radius
            &&& p.f_bracket_bins == d.f_bracket_bins
            &&& p.alpha_bracket == d.alpha_bracket
            &&& p.beta_bracket == d.beta_bracket
            &&& p.sigma_bracket == d.sigma_bracket
            &&& (p.alpha_min, p.alpha_max) == (d.alpha_min, d.alpha_max)
            &&& (p.beta_min, p.beta_max) == (
                u.seconds_of(d.beta_min_ms),
                u.seconds_of(d.beta_max_ms),
            )
            &&& (p.sigma_min, p.sigma_max) == (
                u.seconds_of(d.sigma_min_ms),
                u.seconds_of(d.sigma_max_ms),
            )
        }),
{
}

/// What a document says of the blocks and their release is what they get.
pub proof fn law_settings_reach_the_blocks<U: Units>(u: &U, c: Config)
    ensures
        ({
            let b = c.blocks_config(u);
            &&& b.capture_tol == c.blocks.capture_tolerance
            &&& (b.f_min, b.f_max) == (c.blocks.f_min, c.blocks.f_max)
            &&& b.rho_sq_max == c.blocks.rho_sq_max
            &&& b.release.fade_level == c.envelope.fade_level
            &&& b.release.fade_dur_scale == c.envelope.fade_dur_scale
            &&& b.release.fade_dur_min == u.seconds_of(c.envelope.fade_dur_min_ms)
            &&& b.release.fade_dur_max == u.seconds_of(c.envelope.fade_dur_max_ms)
        }),
{
}

/// What a document says of the residual is what its analysis gets.
pub proof fn law_settings_reach_the_residual<U: Units>(u: &U, c: Config, update: usize)
    ensures
        ({
            let (r, p) = (c.residual_at(u, update), c.residual.power);
            &&& r.enabled == c.residual.enabled
            &&& r.update_samples == update
            &&& r.storage == c.residual.storage
            &&& r.power.mode == p.mode
            &&& r.power.bandwidth_tau_scale == p.tau_scale
            &&& r.power.fixed_tau_seconds == u.seconds_double_of(p.tau_ms)
            &&& r.power.tau_min_seconds == u.seconds_double_of(p.tau_min_ms)
            &&& r.power.tau_max_seconds == u.seconds_double_of(p.tau_max_ms)
        }),
{
}

} // verus!
