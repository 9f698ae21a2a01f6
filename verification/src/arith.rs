//! The floating-point arithmetic a refinement search asks for.
//!
//! The search decides on bit patterns; the formulas between two decisions are here, over elementary
//! arithmetic. Rendering and scoring an envelope are handed in as functions, each of which must be
//! one: given the same bits it answers with the same bits.

use crate::atom::{Envelope, EnvelopeParams, EnvelopeView, GaussianParams, Shape};
use crate::corr::Projection;
use crate::dict::{Block, ReleasePolicy};
use crate::gauss::DEFAULT_CUTOFF_LEVEL;
use crate::ieee::{Double, Single};
use crate::reals::Reals;
use crate::refine::RefineConfig;
use crate::rounding::{
    close, exponentiates, gives, gives_single, is_exponential, is_log, is_logarithm, least,
    lemma_close_looser, lemma_close_most, lemma_close_sign, lemma_close_to_itself,
    lemma_double_below_one, lemma_in_order_single, lemma_larger, lemma_larger_single, lemma_minus,
    lemma_narrows, lemma_over, lemma_over_single, lemma_small_numbers, lemma_times,
    lemma_times_single, lemma_within_a_millionth, most, rounded, rounds, takes_logs, tame,
};
use vstd::arithmetic::power2::pow2;
use vstd::prelude::*;

verus! {

/// The shape parameters being searched, per kind.
#[derive(Clone, Copy, Debug, PartialEq, Eq, Structural)]
pub enum Form {
    Fof { alpha: Single, beta: Single },
    Gaussian { sigma: Single },
}

/// The parameters being refined. Amplitude and phase are solved, never searched.
#[derive(Clone, Copy, Debug, PartialEq, Eq, Structural)]
pub struct Params {
    pub form: Form,
    pub f: Single,
    pub t0: i64,
}

/// The parameter a search stage moves.
#[derive(Clone, Copy, Debug, PartialEq, Eq, Structural)]
pub enum Stage {
    Frequency,
    Alpha,
    Beta,
    Sigma,
    /// Within this many samples.
    Onset(usize),
}

/// The 2x2 Gram of an envelope's two quadratures at one carrier.
#[derive(Clone, Copy, Debug, PartialEq, Eq, Structural)]
pub struct Gram {
    pub uu: Double,
    pub uv: Double,
    pub vv: Double,
}

/// A rendered envelope and the length of its fit region.
#[derive(Debug)]
pub struct Rendered {
    pub env: Envelope,
    pub cut: usize,
}

/// A rendered envelope as a value.
pub struct Drawn {
    pub env: EnvelopeView,
    pub cut: usize,
}

impl View for Rendered {
    type V = Drawn;

    open spec fn view(&self) -> Drawn {
        Drawn { env: self.env@, cut: self.cut }
    }
}

/// A render as a value, where there is one.
pub open spec fn drawn(r: Option<Rendered>) -> Option<Drawn> {
    match r {
        Some(e) => Some(e@),
        None => None,
    }
}

/// The arithmetic, one method to a formula.
pub trait Arith {
    /// The arithmetic is defined everywhere and repeats itself.
    spec fn repeatable(&self) -> bool;

    spec fn place_of(&self, a: Double, b: Double, left: bool) -> Double;

    spec fn bracket_of(&self, stage: Stage, p: Params) -> (Double, Double);

    spec fn value_of(&self, stage: Stage, x: Double) -> Single;

    spec fn nearest_of(&self, x: Double) -> i64;

    spec fn half_len_of(&self, sigma: Single) -> i64;

    spec fn release_of(&self, alpha: Single) -> Single;

    spec fn product_of(&self, alpha: Single, beta: Single) -> Single;

    spec fn rendered(&self, shape: Shape) -> Option<Drawn>;

    spec fn region_of(&self, p: Params, e: Drawn, gram: Option<Gram>) -> Double;

    spec fn gram_of(&self, e: Drawn, f: Single) -> Gram;

    spec fn full_of(&self, p: Params, e: Drawn) -> Option<Projection>;

    spec fn raised_of(&self, score: Double) -> Double;

    /// The interior point of `[a, b]` nearer `a` when `left`, nearer `b` otherwise.
    fn place(&self, a: Double, b: Double, left: bool) -> (r: Double)
        requires
            self.repeatable(),
        ensures
            r == self.place_of(a, b, left),
    ;

    /// The ends of the line a stage searches about `p`.
    fn bracket(&self, stage: Stage, p: Params) -> (r: (Double, Double))
        requires
            self.repeatable(),
        ensures
            r == self.bracket_of(stage, p),
    ;

    /// The parameter at a point of a stage's line.
    fn value(&self, stage: Stage, x: Double) -> (r: Single)
        requires
            self.repeatable(),
        ensures
            r == self.value_of(stage, x),
    ;

    /// The onset nearest a point of the onset stage's line.
    fn nearest(&self, x: Double) -> (r: i64)
        requires
            self.repeatable(),
        ensures
            r == self.nearest_of(x),
    ;

    /// Samples from a Gaussian's onset to its centre.
    fn half_len(&self, sigma: Single) -> (r: i64)
        requires
            self.repeatable(),
        ensures
            r == self.half_len_of(sigma),
    ;

    /// The release duration the seed's policy gives a decay rate.
    fn release(&self, alpha: Single) -> (r: Single)
        requires
            self.repeatable(),
        ensures
            r == self.release_of(alpha),
    ;

    fn product(&self, alpha: Single, beta: Single) -> (r: Single)
        requires
            self.repeatable(),
        ensures
            r == self.product_of(alpha, beta),
    ;

    /// Render a shape, or `None` for one that cannot be.
    fn render(&self, shape: Shape) -> (r: Option<Rendered>)
        requires
            self.repeatable(),
        ensures
            drawn(r) == self.rendered(shape),
    ;

    /// Captured energy over the fit region, at a Gram already computed where there is one.
    fn region(&self, p: Params, e: &Rendered, gram: Option<Gram>) -> (r: Double)
        requires
            self.repeatable(),
        ensures
            r == self.region_of(p, e@, gram),
    ;

    /// The Gram of an envelope's fit region at carrier `f`.
    fn gram(&self, e: &Rendered, f: Single) -> (r: Gram)
        requires
            self.repeatable(),
        ensures
            r == self.gram_of(e@, f),
    ;

    /// The projection on the whole support, or `None` for a degenerate one.
    fn full(&self, p: Params, e: &Rendered) -> (r: Option<Projection>)
        requires
            self.repeatable(),
        ensures
            r == self.full_of(p, e@),
    ;

    /// A score raised by the fraction below which a round counts as no improvement.
    fn raised(&self, score: Double) -> (r: Double)
        requires
            self.repeatable(),
        ensures
            r == self.raised_of(score),
    ;
}

/// The logarithms of the ends of a multiplicative bracket about `x`, kept between two bounds.
pub open spec fn log_bracket_of<R: Reals>(r: &R, x: Single, factor: Single, min: Single, max: Single) -> (Double, Double) {
    let b = r.widen_of(factor.larger((Single { bits: 0x3f80_0000 })));
    (
        r.ln_of(r.over_of(r.widen_of(x), b).larger(r.widen_of(min))),
        r.ln_of(r.times_of(r.widen_of(x), b).smaller(r.widen_of(max))),
    )
}

/// The logarithms of the ends of a multiplicative bracket about `x`, kept between two bounds.
pub fn log_bracket<R: Reals>(r: &R, x: Single, factor: Single, min: Single, max: Single) -> (answer: (Double, Double))
    requires
        r.repeatable(),
    ensures
        answer == log_bracket_of(r, x, factor, min, max),
{
    let b = r.widen(factor.max((Single { bits: 0x3f80_0000 })));
    (
        r.ln(r.over(r.widen(x), b).max(r.widen(min))),
        r.ln(r.times(r.widen(x), b).min(r.widen(max))),
    )
}

/// Widen a seed's frozen release clamps to whatever a refined `alpha` needs: the range the search's
/// own bounds on `alpha` imply.
pub open spec fn relax_clamps_of<R: Reals>(r: &R, policy: ReleasePolicy, cfg: RefineConfig) -> ReleasePolicy {
    let at_min = r.over_single_of(policy.fade_dur_scale, cfg.alpha_max);
    let at_max = r.over_single_of(policy.fade_dur_scale, cfg.alpha_min);
    ReleasePolicy {
        fade_level: policy.fade_level,
        fade_dur_scale: policy.fade_dur_scale,
        fade_dur_min: at_min.smaller(policy.fade_dur_min),
        fade_dur_max: at_max.larger(policy.fade_dur_max),
    }
}

/// Widen a seed's frozen release clamps to whatever a refined `alpha` needs: the range the search's
/// own bounds on `alpha` imply.
pub fn relax_clamps<R: Reals>(r: &R, policy: ReleasePolicy, cfg: RefineConfig) -> (answer: ReleasePolicy)
    requires
        r.repeatable(),
    ensures
        answer == relax_clamps_of(r, policy, cfg),
{
    let at_min = r.over_single(policy.fade_dur_scale, cfg.alpha_max);
    let at_max = r.over_single(policy.fade_dur_scale, cfg.alpha_min);
    ReleasePolicy {
        fade_level: policy.fade_level,
        fade_dur_scale: policy.fade_dur_scale,
        fade_dur_min: at_min.min(policy.fade_dur_min),
        fade_dur_max: at_max.max(policy.fade_dur_max),
    }
}

/// The release policy a FOF seed implies. The scale is recovered from the seed, so a refined `alpha`
/// gets the duration the seed's own policy would have given it.
pub open spec fn seed_policy_of<R: Reals>(r: &R, env: EnvelopeParams, cfg: RefineConfig) -> ReleasePolicy {
    let frozen = ReleasePolicy {
        fade_level: env.fade_level,
        fade_dur_scale: r.times_single_of(env.fade_dur, env.alpha),
        fade_dur_min: env.fade_dur,
        fade_dur_max: env.fade_dur,
    };
    relax_clamps_of(r, frozen, cfg)
}

/// The release policy a FOF seed implies. The scale is recovered from the seed, so a refined `alpha`
/// gets the duration the seed's own policy would have given it.
pub fn seed_policy<R: Reals>(r: &R, env: EnvelopeParams, cfg: RefineConfig) -> (answer: ReleasePolicy)
    requires
        r.repeatable(),
    ensures
        answer == seed_policy_of(r, env, cfg),
{
    let frozen = ReleasePolicy {
        fade_level: env.fade_level,
        fade_dur_scale: r.times_single(env.fade_dur, env.alpha),
        fade_dur_min: env.fade_dur,
        fade_dur_max: env.fade_dur,
    };
    relax_clamps(r, frozen, cfg)
}

/// What a search asks of a machine: its arithmetic, and the rendering and scoring of envelopes.
pub struct Scorer<R, Render, Region, GramAt, Full> {
    pub reals: R,
    /// Render a shape and cut its fit region, or `None` for one that cannot be rendered.
    pub render: Render,
    /// Energy of a residual captured over the fit region, at a Gram already computed where there is
    /// one.
    pub region: Region,
    /// The Gram of an envelope's fit region at a carrier.
    pub gram: GramAt,
    /// The projection of a residual on the whole support, or `None` for a degenerate one.
    pub full: Full,
}

/// [`Arith`] over elementary arithmetic, for one seed on one residual.
pub struct Search<'a, R, Render, Region, GramAt, Full> {
    pub reals: &'a R,
    pub residual: &'a [Single],
    pub cfg: RefineConfig,
    /// The release a refined FOF gets.
    pub policy: ReleasePolicy,
    /// The truncation a refined Gaussian keeps.
    pub cutoff_level: Single,
    /// The width of one of the block's transform bins, Hz, above zero.
    pub bin_hz: Single,
    pub sample_rate: Single,
    pub render: &'a Render,
    pub region: &'a Region,
    pub gram: &'a GramAt,
    pub full: &'a Full,
}

/// A function renders a shape as `d`.
pub open spec fn renders_as<Render: Fn(Shape) -> Option<Rendered>>(
    render: &Render,
    shape: Shape,
    d: Option<Drawn>,
) -> bool {
    exists|r: Option<Rendered>| #[trigger] call_ensures(*render, (shape,), r) && drawn(r) == d
}

/// A function gives `d` the fit-region score `r`.
pub open spec fn region_scores<Region: Fn(&[Single], Params, &Rendered, Option<Gram>) -> Double>(
    region: &Region,
    residual: &[Single],
    p: Params,
    d: Drawn,
    gram: Option<Gram>,
    r: Double,
) -> bool {
    exists|e: &Rendered| e@ == d && #[trigger] call_ensures(*region, (residual, p, e, gram), r)
}

/// A function gives `d` the Gram `r`.
pub open spec fn has_gram<GramAt: Fn(&Rendered, Single) -> Gram>(
    gram: &GramAt,
    d: Drawn,
    f: Single,
    r: Gram,
) -> bool {
    exists|e: &Rendered| e@ == d && #[trigger] call_ensures(*gram, (e, f), r)
}

/// A function projects a residual on `d` as `r`.
pub open spec fn projects<Full: Fn(&[Single], Params, &Rendered) -> Option<Projection>>(
    full: &Full,
    residual: &[Single],
    p: Params,
    d: Drawn,
    r: Option<Projection>,
) -> bool {
    exists|e: &Rendered| e@ == d && #[trigger] call_ensures(*full, (residual, p, e), r)
}

/// The rendering and scoring are defined everywhere and repeat themselves.
pub open spec fn scoring<R, Render, Region, GramAt, Full>(
    reals: &R,
    render: &Render,
    region: &Region,
    gram: &GramAt,
    full: &Full,
) -> bool where
    R: Reals,
    Render: Fn(Shape) -> Option<Rendered>,
    Region: Fn(&[Single], Params, &Rendered, Option<Gram>) -> Double,
    GramAt: Fn(&Rendered, Single) -> Gram,
    Full: Fn(&[Single], Params, &Rendered) -> Option<Projection>,
{
    &&& reals.repeatable()
    &&& forall|s: Shape| #[trigger] call_requires(*render, (s,))
    &&& forall|s: Shape, x: Option<Rendered>, y: Option<Rendered>| #[trigger]
        call_ensures(*render, (s,), x) && #[trigger] call_ensures(*render, (s,), y) ==> drawn(x)
            == drawn(y)
    &&& forall|residual: &[Single], p: Params, e: &Rendered, g: Option<Gram>| #[trigger]
        call_requires(*region, (residual, p, e, g))
    &&& forall|
        residual: &[Single],
        p: Params,
        d: &Rendered,
        e: &Rendered,
        g: Option<Gram>,
        x: Double,
        y: Double,
    | #[trigger]
        call_ensures(*region, (residual, p, d, g), x) && #[trigger] call_ensures(
            *region,
            (residual, p, e, g),
            y,
        ) && d@ == e@ ==> x == y
    &&& forall|e: &Rendered, f: Single| #[trigger] call_requires(*gram, (e, f))
    &&& forall|d: &Rendered, e: &Rendered, f: Single, x: Gram, y: Gram| #[trigger]
        call_ensures(*gram, (d, f), x) && #[trigger] call_ensures(*gram, (e, f), y) && d@ == e@ ==> x
            == y
    &&& forall|residual: &[Single], p: Params, e: &Rendered| #[trigger]
        call_requires(*full, (residual, p, e))
    &&& forall|
        residual: &[Single],
        p: Params,
        d: &Rendered,
        e: &Rendered,
        x: Option<Projection>,
        y: Option<Projection>,
    | #[trigger]
        call_ensures(*full, (residual, p, d), x) && #[trigger] call_ensures(
            *full,
            (residual, p, e),
            y,
        ) && d@ == e@ ==> x == y
}

impl<R, Render, Region, GramAt, Full> Scorer<R, Render, Region, GramAt, Full> where
    R: Reals,
    Render: Fn(Shape) -> Option<Rendered>,
    Region: Fn(&[Single], Params, &Rendered, Option<Gram>) -> Double,
    GramAt: Fn(&Rendered, Single) -> Gram,
    Full: Fn(&[Single], Params, &Rendered) -> Option<Projection>,
{
    /// The rendering and scoring are defined everywhere and repeat themselves.
    pub open spec fn repeatable(&self) -> bool {
        scoring(&self.reals, &self.render, &self.region, &self.gram, &self.full)
    }

    /// The search of a block's neighbourhood for a seed of shape `env`.
    ///
    /// A FOF seed implies the release of the shapes tried; a Gaussian one fixes their truncation.
    pub open spec fn search_of<'a>(
        &'a self,
        residual: &'a [Single],
        block: Block,
        env: Shape,
        cfg: RefineConfig,
    ) -> Search<'a, R, Render, Region, GramAt, Full> {
        let r = &self.reals;
        Search {
            reals: r,
            residual,
            cfg,
            policy: match env {
                Shape::Fof(p) => seed_policy_of(r, p, cfg),
                Shape::Gaussian(_) => no_policy_of(),
            },
            cutoff_level: match env {
                Shape::Fof(_) => Single { bits: DEFAULT_CUTOFF_LEVEL },
                Shape::Gaussian(g) => g.cutoff_level,
            },
            bin_hz: block.hz(r, 1).larger(Single { bits: 0x0080_0000 }),
            sample_rate: block.env.sample_rate,
            render: &self.render,
            region: &self.region,
            gram: &self.gram,
            full: &self.full,
        }
    }

    /// The search of a block's neighbourhood for a seed of shape `env`.
    pub fn search<'a>(
        &'a self,
        residual: &'a [Single],
        block: &Block,
        env: Shape,
        cfg: &RefineConfig,
    ) -> (answer: Search<'a, R, Render, Region, GramAt, Full>)
        requires
            self.repeatable(),
        ensures
            answer == self.search_of(residual, *block, env, *cfg),
            answer.repeatable(),
    {
        let r = &self.reals;
        let policy = match env {
            Shape::Fof(p) => seed_policy(r, p, *cfg),
            Shape::Gaussian(_) => ReleasePolicy {
                fade_level: Single { bits: 0 },
                fade_dur_scale: Single { bits: 0 },
                fade_dur_min: Single { bits: 0 },
                fade_dur_max: Single { bits: 0 },
            },
        };
        let cutoff_level = match env {
            Shape::Fof(_) => Single { bits: DEFAULT_CUTOFF_LEVEL },
            Shape::Gaussian(g) => g.cutoff_level,
        };
        Search {
            reals: r,
            residual,
            cfg: *cfg,
            policy,
            cutoff_level,
            bin_hz: block.bin_hz(r, 1).max(Single { bits: 0x0080_0000 }),
            sample_rate: block.env.sample_rate,
            render: &self.render,
            region: &self.region,
            gram: &self.gram,
            full: &self.full,
        }
    }
}

/// No release at all.
pub open spec fn no_policy_of() -> ReleasePolicy {
    ReleasePolicy {
        fade_level: Single { bits: 0 },
        fade_dur_scale: Single { bits: 0 },
        fade_dur_min: Single { bits: 0 },
        fade_dur_max: Single { bits: 0 },
    }
}

impl<'a, R, Render, Region, GramAt, Full> Arith for Search<'a, R, Render, Region, GramAt, Full> where
    R: Reals,
    Render: Fn(Shape) -> Option<Rendered>,
    Region: Fn(&[Single], Params, &Rendered, Option<Gram>) -> Double,
    GramAt: Fn(&Rendered, Single) -> Gram,
    Full: Fn(&[Single], Params, &Rendered) -> Option<Projection>,
 {
    open spec fn repeatable(&self) -> bool {
        scoring(self.reals, self.render, self.region, self.gram, self.full)
    }

    open spec fn place_of(&self, a: Double, b: Double, left: bool) -> Double {
        let r = self.reals;
        let reach = r.times_of((Double { bits: 0x3fe3_c6ef_372f_e951 }), r.minus_of(b, a));
        if left {
            r.minus_of(b, reach)
        } else {
            r.plus_of(a, reach)
        }
    }

    fn place(&self, a: Double, b: Double, left: bool) -> (answer: Double) {
        let r = self.reals;
        let reach = r.times((Double { bits: 0x3fe3_c6ef_372f_e951 }), r.minus(b, a));
        if left {
            r.minus(b, reach)
        } else {
            r.plus(a, reach)
        }
    }

    open spec fn bracket_of(&self, stage: Stage, p: Params) -> (Double, Double) {
        let r = self.reals;
        let cfg = &self.cfg;
        match (stage, p.form) {
            (Stage::Alpha, Form::Fof { alpha, .. }) => log_bracket_of(
                r,
                alpha,
                cfg.alpha_bracket,
                cfg.alpha_min,
                cfg.alpha_max,
            ),
            (Stage::Beta, Form::Fof { beta, .. }) => log_bracket_of(
                r,
                beta,
                cfg.beta_bracket,
                cfg.beta_min,
                cfg.beta_max,
            ),
            (Stage::Sigma, Form::Gaussian { sigma }) => log_bracket_of(
                r,
                sigma,
                cfg.sigma_bracket,
                cfg.sigma_min,
                cfg.sigma_max,
            ),
            (Stage::Onset(radius), _) => (
                r.long_of((p.t0 - radius) as i128),
                r.long_of((p.t0 + radius) as i128),
            ),
            _ => {
                let half = r.times_single_of(self.bin_hz, cfg.f_bracket_bins);
                (
                    r.widen_of(r.minus_single_of(p.f, half).larger(cfg.f_min)),
                    r.widen_of(r.plus_single_of(p.f, half).smaller(cfg.f_max)),
                )
            },
        }
    }

    fn bracket(&self, stage: Stage, p: Params) -> (answer: (Double, Double)) {
        let r = self.reals;
        let cfg = &self.cfg;
        match (stage, p.form) {
            (Stage::Alpha, Form::Fof { alpha, .. }) => log_bracket(
                r,
                alpha,
                cfg.alpha_bracket,
                cfg.alpha_min,
                cfg.alpha_max,
            ),
            (Stage::Beta, Form::Fof { beta, .. }) => log_bracket(
                r,
                beta,
                cfg.beta_bracket,
                cfg.beta_min,
                cfg.beta_max,
            ),
            (Stage::Sigma, Form::Gaussian { sigma }) => log_bracket(
                r,
                sigma,
                cfg.sigma_bracket,
                cfg.sigma_min,
                cfg.sigma_max,
            ),
            (Stage::Onset(radius), _) => (
                r.long(p.t0 as i128 - radius as i128),
                r.long(p.t0 as i128 + radius as i128),
            ),
            _ => {
                let half = r.times_single(self.bin_hz, cfg.f_bracket_bins);
                (
                    r.widen(r.minus_single(p.f, half).max(cfg.f_min)),
                    r.widen(r.plus_single(p.f, half).min(cfg.f_max)),
                )
            },
        }
    }

    open spec fn value_of(&self, stage: Stage, x: Double) -> Single {
        let r = self.reals;
        match stage {
            Stage::Alpha | Stage::Beta | Stage::Sigma => r.narrow_of(r.exp_of(x)),
            Stage::Frequency | Stage::Onset(_) => r.narrow_of(x),
        }
    }

    fn value(&self, stage: Stage, x: Double) -> (answer: Single) {
        let r = self.reals;
        match stage {
            Stage::Alpha | Stage::Beta | Stage::Sigma => r.narrow(r.exp(x)),
            Stage::Frequency | Stage::Onset(_) => r.narrow(x),
        }
    }

    open spec fn nearest_of(&self, x: Double) -> i64 {
        let r = self.reals;
        r.integer_of(r.round_of(x))
    }

    fn nearest(&self, x: Double) -> (answer: i64) {
        let r = self.reals;
        r.integer(r.round(x))
    }

    open spec fn half_len_of(&self, sigma: Single) -> i64 {
        let r = self.reals;
        (GaussianParams { sigma, cutoff_level: self.cutoff_level }).reach(r, self.sample_rate) as i64
    }

    fn half_len(&self, sigma: Single) -> (answer: i64) {
        let r = self.reals;
        let g = GaussianParams { sigma, cutoff_level: self.cutoff_level };
        g.half_len(r, self.sample_rate) as i64
    }

    open spec fn release_of(&self, alpha: Single) -> Single {
        let r = self.reals;
        r.over_single_of(self.policy.fade_dur_scale, alpha).larger(self.policy.fade_dur_min).smaller(self.policy.fade_dur_max)
    }

    fn release(&self, alpha: Single) -> (answer: Single) {
        let r = self.reals;
        r.over_single(self.policy.fade_dur_scale, alpha).max(self.policy.fade_dur_min).min(self.policy.fade_dur_max)
    }

    open spec fn product_of(&self, alpha: Single, beta: Single) -> Single {
        let r = self.reals;
        r.times_single_of(alpha, beta)
    }

    fn product(&self, alpha: Single, beta: Single) -> (answer: Single) {
        let r = self.reals;
        r.times_single(alpha, beta)
    }

    open spec fn raised_of(&self, score: Double) -> Double {
        let r = self.reals;
        r.times_of(score, r.plus_of((Double { bits: 0x3ff0_0000_0000_0000 }), self.cfg.score_tol))
    }

    fn raised(&self, score: Double) -> (answer: Double) {
        let r = self.reals;
        r.times(score, r.plus((Double { bits: 0x3ff0_0000_0000_0000 }), self.cfg.score_tol))
    }

    open spec fn rendered(&self, shape: Shape) -> Option<Drawn> {
        choose|d: Option<Drawn>| renders_as(self.render, shape, d)
    }

    open spec fn region_of(&self, p: Params, e: Drawn, gram: Option<Gram>) -> Double {
        choose|r: Double| region_scores(self.region, self.residual, p, e, gram, r)
    }

    open spec fn gram_of(&self, e: Drawn, f: Single) -> Gram {
        choose|r: Gram| has_gram(self.gram, e, f, r)
    }

    open spec fn full_of(&self, p: Params, e: Drawn) -> Option<Projection> {
        choose|r: Option<Projection>| projects(self.full, self.residual, p, e, r)
    }

    fn render(&self, shape: Shape) -> (r: Option<Rendered>) {
        let r = (self.render)(shape);
        assert(renders_as(self.render, shape, drawn(r)));
        r
    }

    fn region(&self, p: Params, e: &Rendered, gram: Option<Gram>) -> (r: Double) {
        let r = (self.region)(self.residual, p, e, gram);
        assert(region_scores(self.region, self.residual, p, e@, gram, r));
        r
    }

    fn gram(&self, e: &Rendered, f: Single) -> (r: Gram) {
        let r = (self.gram)(e, f);
        assert(has_gram(self.gram, e@, f, r));
        r
    }

    fn full(&self, p: Params, e: &Rendered) -> (r: Option<Projection>) {
        let r = (self.full)(self.residual, p, e);
        assert(projects(self.full, self.residual, p, e@, r));
        r
    }
}

/// A scale parameter is searched over on both sides of where it stands: down to the `factor`th part of
/// it or the lower bound, and up to `factor` times it or the upper.
pub proof fn law_a_bracket_lies_on_both_sides<R: Reals>(
    r: &R,
    l: spec_fn(real) -> real,
    base: real,
    x: Single,
    factor: Single,
    min: Single,
    max: Single,
)
    requires
        rounds(r),
        is_logarithm(l, base),
        takes_logs(r, l),
        x.finite() && factor.finite() && min.finite() && max.finite(),
        0real < x.value(),
        1real <= factor.value(),
        tame(min.value()),
        tame(max.value()),
        tame(x.value() / factor.value()),
        tame(x.value() * factor.value()),
    ensures
        exists|lower: real, upper: real|
            {
                let (lo, hi) = log_bracket_of(r, x, factor, min, max);
                &&& #[trigger] close(lower, most(x.value() / factor.value(), min.value()), 4)
                &&& #[trigger] close(upper, least(x.value() * factor.value(), max.value()), 4)
                &&& lo.finite() && close(lo.value(), l(lower), 1)
                &&& hi.finite() && close(hi.value(), l(upper), 1)
            },
{
    lemma_small_numbers();
    let one = Single { bits: 0x3f80_0000 };
    lemma_larger_single(factor, one);
    let b = r.widen_of(factor.larger(one));
    let (wx, wmin, wmax) = (r.widen_of(x), r.widen_of(min), r.widen_of(max));
    let f = factor.value();
    assert(b.value() == f);
    lemma_close_to_itself(x.value(), 0);
    lemma_close_to_itself(f, 0);
    lemma_close_to_itself(min.value(), 4);
    lemma_close_to_itself(max.value(), 4);
    lemma_over(r, wx, b, x.value(), f, 0, 0);
    lemma_times(r, wx, b, x.value(), f, 0, 0);
    let (down, up) = (r.over_of(wx, b), r.times_of(wx, b));
    lemma_close_looser(up.value(), x.value() * f, 3, 4);
    lemma_close_most(down.value(), wmin.value(), x.value() / f, min.value(), 4);
    lemma_close_most(up.value(), wmax.value(), x.value() * f, max.value(), 4);
    lemma_larger(down, wmin);
    lemma_larger(up, wmax);
    let (lower, upper) = (down.larger(wmin).value(), up.smaller(wmax).value());
    lemma_close_sign(lower, most(x.value() / f, min.value()), 4);
    lemma_close_sign(upper, least(x.value() * f, max.value()), 4);
    assert(is_log(r.ln_of(down.larger(wmin)), l(lower)));
    assert(is_log(r.ln_of(up.smaller(wmax)), l(upper)));
}

/// The two points a bracket is searched at are its golden sections: 618 thousandths of the way from
/// either end.
pub proof fn law_points_are_golden_sections<'a, R, Render, Region, GramAt, Full>(
    ar: &Search<'a, R, Render, Region, GramAt, Full>,
    a: Double,
    b: Double,
) where
    R: Reals,
    Render: Fn(Shape) -> Option<Rendered>,
    Region: Fn(&[Single], Params, &Rendered, Option<Gram>) -> Double,
    GramAt: Fn(&Rendered, Single) -> Gram,
    Full: Fn(&[Single], Params, &Rendered) -> Option<Projection>,

    requires
        rounds(ar.reals),
        a.finite() && b.finite(),
        tame(b.value() - a.value()),
        tame(618_034real / 1_000_000real * (b.value() - a.value())),
    ensures
        exists|reach: real|
            {
                &&& #[trigger] close(
                    reach,
                    618_034real / 1_000_000real * (b.value() - a.value()),
                    5,
                )
                &&& rounded(ar.place_of(a, b, true).value(), b.value() - reach)
                &&& rounded(ar.place_of(a, b, false).value(), a.value() + reach)
            },
{
    let r = ar.reals;
    let golden = Double { bits: 0x3fe3_c6ef_372f_e951 };
    vstd::arithmetic::power2::lemma2_to64();
    lemma_double_below_one(golden, 1, 0x3_c6ef_372f_e951);
    assert(0x10_0000_0000_0000 * pow2(1) == 0x20_0000_0000_0000);
    assert((0x10_0000_0000_0000 * pow2(1)) as real == 0x20_0000_0000_0000real);
    lemma_within_a_millionth(golden.value(), 618_034real / 1_000_000real);
    let span = b.value() - a.value();
    lemma_minus(r, b, a);
    let d = r.minus_of(b, a);
    lemma_times(r, golden, d, 618_034real / 1_000_000real, span, 1, 1);
    let reach = r.times_of(golden, d);
    assert(gives(r.minus_of(b, reach), b.value() - reach.value()));
    assert(gives(r.plus_of(a, reach), a.value() + reach.value()));
    assert(close(reach.value(), 618_034real / 1_000_000real * span, 5));
}

/// A carrier is searched so many bins to either side of where it stands, within its bounds.
pub proof fn law_a_carrier_is_searched_about_itself<'a, R, Render, Region, GramAt, Full>(
    ar: &Search<'a, R, Render, Region, GramAt, Full>,
    p: Params,
) where
    R: Reals,
    Render: Fn(Shape) -> Option<Rendered>,
    Region: Fn(&[Single], Params, &Rendered, Option<Gram>) -> Double,
    GramAt: Fn(&Rendered, Single) -> Gram,
    Full: Fn(&[Single], Params, &Rendered) -> Option<Projection>,

    requires
        rounds(ar.reals),
        ar.bin_hz.finite() && ar.cfg.f_bracket_bins.finite() && p.f.finite(),
        ar.cfg.f_min.finite() && ar.cfg.f_max.finite(),
        0real < ar.bin_hz.value(),
        0real < ar.cfg.f_bracket_bins.value(),
        tame(ar.bin_hz.value() * ar.cfg.f_bracket_bins.value()),
        ar.reals.minus_single_of(
            p.f,
            ar.reals.times_single_of(ar.bin_hz, ar.cfg.f_bracket_bins),
        ).finite(),
        ar.reals.plus_single_of(
            p.f,
            ar.reals.times_single_of(ar.bin_hz, ar.cfg.f_bracket_bins),
        ).finite(),
    ensures
        exists|half: real, down: real, up: real|
            {
                let (lo, hi) = ar.bracket_of(Stage::Frequency, p);
                &&& #[trigger] close(half, ar.bin_hz.value() * ar.cfg.f_bracket_bins.value(), 3)
                &&& #[trigger] rounded(down, p.f.value() - half)
                &&& #[trigger] rounded(up, p.f.value() + half)
                &&& lo.value() == most(down, ar.cfg.f_min.value())
                &&& hi.value() == least(up, ar.cfg.f_max.value())
            },
{
    let r = ar.reals;
    lemma_close_to_itself(ar.bin_hz.value(), 0);
    lemma_close_to_itself(ar.cfg.f_bracket_bins.value(), 0);
    lemma_times_single(
        r,
        ar.bin_hz,
        ar.cfg.f_bracket_bins,
        ar.bin_hz.value(),
        ar.cfg.f_bracket_bins.value(),
        0,
        0,
    );
    let half = r.times_single_of(ar.bin_hz, ar.cfg.f_bracket_bins);
    let (down, up) = (r.minus_single_of(p.f, half), r.plus_single_of(p.f, half));
    assert(gives_single(down, p.f.value() - half.value()));
    assert(gives_single(up, p.f.value() + half.value()));
    lemma_larger_single(down, ar.cfg.f_min);
    lemma_larger_single(up, ar.cfg.f_max);
    assert(rounded(down.value(), p.f.value() - half.value()));
    assert(rounded(up.value(), p.f.value() + half.value()));
}

/// An onset is searched the radius to either side of where it stands.
pub proof fn law_an_onset_is_searched_about_itself<'a, R, Render, Region, GramAt, Full>(
    ar: &Search<'a, R, Render, Region, GramAt, Full>,
    p: Params,
    radius: usize,
) where
    R: Reals,
    Render: Fn(Shape) -> Option<Rendered>,
    Region: Fn(&[Single], Params, &Rendered, Option<Gram>) -> Double,
    GramAt: Fn(&Rendered, Single) -> Gram,
    Full: Fn(&[Single], Params, &Rendered) -> Option<Projection>,

    requires
        rounds(ar.reals),
        i64::MIN <= p.t0 - radius,
        p.t0 + radius <= i64::MAX,
    ensures
        ({
            let (lo, hi) = ar.bracket_of(Stage::Onset(radius), p);
            gives(lo, (p.t0 - radius) as real) && gives(hi, (p.t0 + radius) as real)
        }),
{
    let r = ar.reals;
    assert(gives(r.long_of((p.t0 - radius) as i128), (p.t0 - radius) as i128 as real));
    assert(gives(r.long_of((p.t0 + radius) as i128), (p.t0 + radius) as i128 as real));
}

/// A scale is searched by its logarithm: a point of the line is the exponential of what it stands for.
pub proof fn law_scales_are_searched_by_their_logarithms<'a, R, Render, Region, GramAt, Full>(
    ar: &Search<'a, R, Render, Region, GramAt, Full>,
    e: spec_fn(real) -> real,
    x: Double,
) where
    R: Reals,
    Render: Fn(Shape) -> Option<Rendered>,
    Region: Fn(&[Single], Params, &Rendered, Option<Gram>) -> Double,
    GramAt: Fn(&Rendered, Single) -> Gram,
    Full: Fn(&[Single], Params, &Rendered) -> Option<Projection>,

    requires
        rounds(ar.reals),
        is_exponential(e),
        exponentiates(ar.reals, e),
        x.finite(),
        tame(e(x.value())),
    ensures
        forall|stage: Stage|
            stage is Alpha || stage is Beta || stage is Sigma ==> {
                let v = #[trigger] ar.value_of(stage, x);
                v.finite() && close(v.value(), e(x.value()), 3)
            },
{
    let r = ar.reals;
    assert(gives(r.exp_of(x), e(x.value())));
    lemma_narrows(r, r.exp_of(x), e(x.value()), 1);
}

/// A refined grain keeps its seed's release in proportion: the duration goes inversely with `alpha`,
/// between the search's own clamps.
pub proof fn law_a_release_keeps_its_proportion<'a, R, Render, Region, GramAt, Full>(
    ar: &Search<'a, R, Render, Region, GramAt, Full>,
    env: EnvelopeParams,
    alpha: Single,
) where
    R: Reals,
    Render: Fn(Shape) -> Option<Rendered>,
    Region: Fn(&[Single], Params, &Rendered, Option<Gram>) -> Double,
    GramAt: Fn(&Rendered, Single) -> Gram,
    Full: Fn(&[Single], Params, &Rendered) -> Option<Projection>,

    requires
        rounds(ar.reals),
        ar.policy == seed_policy_of(ar.reals, env, ar.cfg),
        env.fade_dur.finite() && env.alpha.finite() && alpha.finite(),
        ar.policy.fade_dur_min.finite() && ar.policy.fade_dur_max.finite(),
        0real < env.fade_dur.value(),
        0real < env.alpha.value(),
        0real < alpha.value(),
        0real < ar.policy.fade_dur_min.value(),
        0real < ar.policy.fade_dur_max.value(),
        tame(env.fade_dur.value() * env.alpha.value()),
        tame(env.fade_dur.value() * env.alpha.value() / alpha.value()),
    ensures
        ar.release_of(alpha).finite(),
        close(
            ar.release_of(alpha).value(),
            least(
                most(
                    env.fade_dur.value() * env.alpha.value() / alpha.value(),
                    ar.policy.fade_dur_min.value(),
                ),
                ar.policy.fade_dur_max.value(),
            ),
            7,
        ),
        ar.policy.fade_dur_min.value() <= env.fade_dur.value() <= ar.policy.fade_dur_max.value(),
{
    let r = ar.reals;
    let (d, a, b) = (env.fade_dur.value(), env.alpha.value(), alpha.value());
    lemma_close_to_itself(d, 0);
    lemma_close_to_itself(a, 0);
    lemma_close_to_itself(b, 0);
    lemma_times_single(r, env.fade_dur, env.alpha, d, a, 0, 0);
    let scale = ar.policy.fade_dur_scale;
    lemma_over_single(r, scale, alpha, d * a, b, 3, 0);
    let q = r.over_single_of(scale, alpha);
    let (lo, hi) = (ar.policy.fade_dur_min, ar.policy.fade_dur_max);
    lemma_close_to_itself(lo.value(), 7);
    lemma_close_to_itself(hi.value(), 7);
    lemma_close_most(q.value(), lo.value(), d * a / b, lo.value(), 7);
    lemma_larger_single(q, lo);
    lemma_larger_single(q.larger(lo), hi);
    lemma_close_most(most(q.value(), lo.value()), hi.value(), most(d * a / b, lo.value()), hi.value(), 7);
    let at_min = r.over_single_of(scale, ar.cfg.alpha_max);
    let at_max = r.over_single_of(scale, ar.cfg.alpha_min);
    assert(lo == at_min.smaller(env.fade_dur) && hi == at_max.larger(env.fade_dur));
    if !at_min.nan() {
        lemma_in_order_single(lo, env.fade_dur);
    }
    lemma_in_order_single(env.fade_dur, hi);
    lemma_in_order_single(lo, env.fade_dur);
}

} // verus!
