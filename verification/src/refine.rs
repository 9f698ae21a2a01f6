//! Bounded local refinement of `(t0, f, alpha, beta)` for a FOF and `(t0, f, sigma)` for a Gaussian.
//!
//! The dictionary is a grid, and a real formant almost never sits on it. Refinement moves a selected
//! seed off the grid before it is subtracted, so one atom does the work of a cluster. Amplitude and
//! phase are not searched: they come out of the projection in closed form.
//!
//! # Two scores
//!
//! The **fit-region** score drives the one-dimensional searches. The **full-support** score is the one
//! selection sees. Because their optima differ, the parameters a search likes best can score worse on
//! the full support than the seed did. Both are therefore evaluated the same way, and the refined atom
//! is adopted only if it strictly wins.

use crate::arith::{Arith, Form, Gram, Params, Rendered, Stage};
use crate::atom::{AtomParams, EnvelopeParams, GaussianParams, Shape};
use crate::cache::{admissible, looked_up, CacheState, EnvelopeCache};
use crate::cand::Candidate;
use crate::corr::Projection;
use crate::dict::Block;
use crate::golden::{
    fits, golden, held_to_range, hold_to_range, shape_of, since, Family, Line, Section,
};
use crate::ieee::{Double, Single};
use crate::reals::Reals;
use crate::threads::pool_size;
use vstd::prelude::*;

verus! {

#[derive(Clone, Copy, Debug, PartialEq, Eq, Structural)]
pub struct RefineConfig {
    pub enabled: bool,
    /// Passes of the `f -> alpha -> beta -> t0` cycle.
    pub rounds: usize,
    /// Stop early when a whole round improves the fit score by less than this fraction.
    pub score_tol: Double,
    /// Golden-section evaluations per parameter, beyond the initial bracket.
    pub golden_iters: usize,
    pub f_min: Single,
    pub f_max: Single,
    pub alpha_min: Single,
    pub alpha_max: Single,
    pub beta_min: Single,
    pub beta_max: Single,
    /// Past this a FOF renders silent.
    pub alpha_beta_max: Single,
    /// Bounds on a refined Gaussian's `sigma`, seconds.
    pub sigma_min: Single,
    pub sigma_max: Single,
    /// Reject any envelope longer than this, whatever the bounds imply.
    pub max_atom_samples: usize,
    /// Search `f` within this many bins of the seed.
    pub f_bracket_bins: Single,
    /// Search `alpha` within this multiplicative factor of the seed.
    pub alpha_bracket: Single,
    /// Search `beta` within this multiplicative factor of the seed.
    pub beta_bracket: Single,
    /// Search `sigma` within this multiplicative factor of the seed.
    pub sigma_bracket: Single,
    /// Search `t0` within this many samples. 0 derives it from the block's hop.
    pub t0_radius: usize,
    pub rho_sq_max: Double,
}

impl RefineConfig {
    /// The settings refinement runs with unless told otherwise.
    pub open spec fn standard() -> RefineConfig {
        RefineConfig {
            enabled: true,
            rounds: 3,
            score_tol: Double { bits: 0x3f1a_36e2_eb1c_432d },
            golden_iters: 10,
            f_min: Single { bits: 0x4248_0000 },
            f_max: Single { bits: 0x461c_4000 },
            alpha_min: Single { bits: 0x4220_0000 },
            alpha_max: Single { bits: 0x457a_0000 },
            beta_min: Single { bits: 0x38d1_b717 },
            beta_max: Single { bits: 0x3c23_d70a },
            alpha_beta_max: Single { bits: 0x4080_0000 },
            sigma_min: Single { bits: 0x3a03_126f },
            sigma_max: Single { bits: 0x3e4c_cccd },
            max_atom_samples: 65_536,
            f_bracket_bins: Single { bits: 0x3f80_0000 },
            alpha_bracket: Single { bits: 0x3fcc_cccd },
            beta_bracket: Single { bits: 0x4060_0000 },
            sigma_bracket: Single { bits: 0x4020_0000 },
            t0_radius: 0,
            rho_sq_max: Double { bits: 0x3fef_ff2e_48e8_a71e },
        }
    }
}

impl Default for RefineConfig {
    /// Wider than the voice grid at both ends, so refinement is bounded by physics rather than by the
    /// grid it started from.
    fn default() -> (r: RefineConfig)
        ensures
            r == RefineConfig::standard(),
    {
        RefineConfig {
            enabled: true,
            rounds: 3,
            score_tol: Double { bits: 0x3f1a_36e2_eb1c_432d },
            golden_iters: 10,
            f_min: Single { bits: 0x4248_0000 },
            f_max: Single { bits: 0x461c_4000 },
            alpha_min: Single { bits: 0x4220_0000 },
            alpha_max: Single { bits: 0x457a_0000 },
            beta_min: Single { bits: 0x38d1_b717 },
            beta_max: Single { bits: 0x3c23_d70a },
            alpha_beta_max: Single { bits: 0x4080_0000 },
            sigma_min: Single { bits: 0x3a03_126f },
            sigma_max: Single { bits: 0x3e4c_cccd },
            max_atom_samples: 65_536,
            f_bracket_bins: Single { bits: 0x3f80_0000 },
            alpha_bracket: Single { bits: 0x3fcc_cccd },
            beta_bracket: Single { bits: 0x4060_0000 },
            sigma_bracket: Single { bits: 0x4020_0000 },
            t0_radius: 0,
            rho_sq_max: Double { bits: 0x3fef_ff2e_48e8_a71e },
        }
    }
}

/// Envelope samples below which a refinement scores its trials one at a time. Where the line sits
/// cannot change a result, only how long one takes.
pub const PARALLEL_SUPPORT: usize = 4096;

/// The most trials one speculative batch may score.
pub const MAX_WIDTH: usize = 16;

/// What a candidate's search inherits, and the form it starts from.
pub open spec fn family_of(env: Shape) -> (Family, Form) {
    match env {
        Shape::Fof(p) => (
            Family::Fof { fade_level: p.fade_level },
            Form::Fof { alpha: p.alpha, beta: p.beta },
        ),
        Shape::Gaussian(g) => (
            Family::Gaussian { cutoff_level: g.cutoff_level },
            Form::Gaussian { sigma: g.sigma },
        ),
    }
}

/// The two are the same parameters, as numbers.
pub open spec fn same_params(a: Params, b: Params) -> bool {
    &&& a.f.equals(b.f)
    &&& a.t0 == b.t0
    &&& match (a.form, b.form) {
        (Form::Fof { alpha, beta }, Form::Fof { alpha: alpha_b, beta: beta_b }) => alpha.equals(
            alpha_b,
        ) && beta.equals(beta_b),
        (Form::Gaussian { sigma }, Form::Gaussian { sigma: sigma_b }) => sigma.equals(sigma_b),
        _ => false,
    }
}

fn equal_params(a: Params, b: Params) -> (r: bool)
    ensures
        r == same_params(a, b),
{
    if !a.f.same(b.f) || a.t0 != b.t0 {
        return false;
    }
    match (a.form, b.form) {
        (Form::Fof { alpha, beta }, Form::Fof { alpha: alpha_b, beta: beta_b }) => alpha.same(
            alpha_b,
        ) && beta.same(beta_b),
        (Form::Gaussian { sigma }, Form::Gaussian { sigma: sigma_b }) => sigma.same(sigma_b),
        _ => false,
    }
}

/// Samples the onset stage searches to either side.
pub open spec fn onset_radius(cfg: RefineConfig, hop: int) -> int {
    if cfg.t0_radius > 0 {
        cfg.t0_radius as int
    } else if hop / 2 >= 1 {
        hop / 2
    } else {
        1
    }
}

/// A search in progress: where it stands, its fit-region score there, and the cache.
pub struct Standing {
    pub p: Params,
    pub score: Double,
    pub cache: CacheState,
}

/// What a refinement comes to.
pub struct Outcome {
    /// The parameters to write back, their projection, and whether they moved; nothing where the seed
    /// itself cannot be scored.
    pub adopted: Option<(Params, Projection, bool)>,
    pub cache: CacheState,
}

/// The stage that moves one parameter, from `p`.
pub open spec fn line_for<'a, A: Arith>(
    ar: &'a A,
    cfg: &'a RefineConfig,
    family: Family,
    stage: Stage,
    p: Params,
    gram: Option<Gram>,
) -> Line<'a, A> {
    Line { ar, cfg, family, stage, base: p, gram }
}

/// One parameter's search.
pub open spec fn after_stage<A: Arith>(
    ar: &A,
    cfg: &RefineConfig,
    family: Family,
    stage: Stage,
    gram: Option<Gram>,
    s: Standing,
) -> Standing {
    let (lo, hi) = ar.bracket_of(stage, s.p);
    let (p, score, cache) = line_for(ar, cfg, family, stage, s.p, gram).serial(
        lo,
        hi,
        cfg.golden_iters as int,
        s.score,
        s.cache,
    );
    Standing { p, score, cache }
}

/// The onset one sample either side, tried one after the other: the earlier, then the later of
/// whichever the first left.
pub open spec fn after_polish<A: Arith>(
    ar: &A,
    cfg: &RefineConfig,
    family: Family,
    gram: Option<Gram>,
    s: Standing,
) -> Standing {
    let line = line_for(ar, cfg, family, Stage::Onset(0), s.p, gram);
    let earlier = Params { t0: held_to_range(s.p.t0 - 1), ..s.p };
    let later = Params { t0: held_to_range(s.p.t0 + 1), ..s.p };
    let (f, c) = line.score(s.cache, earlier);
    let (first, next) = if s.score.less(f) {
        (Standing { p: earlier, score: f, cache: c }, s.p)
    } else {
        (Standing { cache: c, ..s }, later)
    };
    let (f, c) = line.score(first.cache, next);
    if first.score.less(f) {
        Standing { p: next, score: f, cache: c }
    } else {
        Standing { cache: c, ..first }
    }
}

/// The Gram the onset stage holds fixed, and the cache its lookup leaves.
pub open spec fn onset_gram<A: Arith>(ar: &A, cfg: &RefineConfig, family: Family, s: Standing) -> (
    Option<Gram>,
    CacheState,
) {
    let (e, c) = looked_up(ar, *cfg, s.cache, shape_of(ar, family, s.p.form));
    match e {
        Some(r) => (Some(ar.gram_of(r, s.p.f)), c),
        None => (None, c),
    }
}

/// One round: the frequency, the shape's parameters, the onset.
pub open spec fn after_round<A: Arith>(
    ar: &A,
    cfg: &RefineConfig,
    family: Family,
    radius: usize,
    s: Standing,
) -> Standing {
    let tuned = after_stage(ar, cfg, family, Stage::Frequency, None, s);
    let shaped = match family {
        Family::Fof { fade_level } => after_stage(
            ar,
            cfg,
            family,
            Stage::Beta,
            None,
            after_stage(ar, cfg, family, Stage::Alpha, None, tuned),
        ),
        Family::Gaussian { cutoff_level } => after_stage(
            ar,
            cfg,
            family,
            Stage::Sigma,
            None,
            tuned,
        ),
    };
    let (gram, c) = onset_gram(ar, cfg, family, shaped);
    let placed = after_stage(
        ar,
        cfg,
        family,
        Stage::Onset(radius),
        gram,
        Standing { cache: c, ..shaped },
    );
    after_polish(ar, cfg, family, gram, placed)
}

/// Up to `n` rounds, stopping after one that improves too little.
pub open spec fn after_rounds<A: Arith>(
    ar: &A,
    cfg: &RefineConfig,
    family: Family,
    radius: usize,
    n: int,
    s: Standing,
) -> Standing
    decreases n,
{
    if n <= 0 {
        s
    } else {
        let next = after_round(ar, cfg, family, radius, s);
        if next.score.at_most(ar.raised_of(s.score)) {
            next
        } else {
            after_rounds(ar, cfg, family, radius, n - 1, next)
        }
    }
}

/// The full-support projection at `p`, and the cache its lookup leaves.
pub open spec fn full_at<A: Arith>(
    ar: &A,
    cfg: &RefineConfig,
    family: Family,
    p: Params,
    c: CacheState,
) -> (Option<Projection>, CacheState) {
    let (e, after) = looked_up(ar, *cfg, c, shape_of(ar, family, p.form));
    match e {
        Some(r) => (ar.full_of(p, r), after),
        None => (None, after),
    }
}

/// Refinement one trial at a time: the reference every width is held to.
pub open spec fn refinement<A: Arith>(
    ar: &A,
    cfg: &RefineConfig,
    family: Family,
    radius: usize,
    seed: Params,
    c: CacheState,
) -> Outcome {
    match full_at(ar, cfg, family, seed, c) {
        (None, c) => Outcome { adopted: None, cache: c },
        (Some(seed_fit), c) => {
            let (score, c) = line_for(ar, cfg, family, Stage::Frequency, seed, None).score(c, seed);
            let end = after_rounds(
                ar,
                cfg,
                family,
                radius,
                cfg.rounds as int,
                Standing { p: seed, score, cache: c },
            );
            if same_params(end.p, seed) {
                Outcome { adopted: Some((seed, seed_fit, false)), cache: end.cache }
            } else {
                match full_at(ar, cfg, family, end.p, end.cache) {
                    (Some(fit), c) => if seed_fit.energy.less(fit.energy) {
                        Outcome { adopted: Some((end.p, fit, true)), cache: c }
                    } else {
                        Outcome { adopted: Some((seed, seed_fit, false)), cache: c }
                    },
                    (None, c) => Outcome { adopted: Some((seed, seed_fit, false)), cache: c },
                }
            }
        },
    }
}

/// A candidate with `p` written back. Only the searched parameters are written: a FOF keeps its
/// seed's release.
pub open spec fn written(cand: Candidate, p: Params, fit: Projection, refined: bool) -> Candidate {
    Candidate {
        atom: AtomParams {
            t0: p.t0,
            f: p.f,
            env: match (cand.atom.env, p.form) {
                (Shape::Fof(env), Form::Fof { alpha, beta }) => Shape::Fof(
                    EnvelopeParams { alpha, beta, ..env },
                ),
                (Shape::Gaussian(g), Form::Gaussian { sigma }) => Shape::Gaussian(
                    GaussianParams { sigma, ..g },
                ),
                _ => cand.atom.env,
            },
            phi: fit.phi,
            amp: fit.amp,
        },
        mp_score: fit.energy,
        refined,
        ..cand
    }
}

fn adopt(cand: &mut Candidate, p: Params, fit: Projection, refined: bool)
    ensures
        *final(cand) == written(*old(cand), p, fit, refined),
{
    let env = match (cand.atom.env, p.form) {
        (Shape::Fof(env), Form::Fof { alpha, beta }) => Shape::Fof(
            EnvelopeParams { alpha, beta, fade_level: env.fade_level, fade_dur: env.fade_dur },
        ),
        (Shape::Gaussian(g), Form::Gaussian { sigma }) => Shape::Gaussian(
            GaussianParams { sigma, cutoff_level: g.cutoff_level },
        ),
        _ => cand.atom.env,
    };
    cand.atom = AtomParams { t0: p.t0, f: p.f, env, phi: fit.phi, amp: fit.amp };
    cand.mp_score = fit.energy;
    cand.refined = refined;
}

/// The search's working state.
struct Search<'a, A: Arith> {
    ar: &'a A,
    cfg: &'a RefineConfig,
    family: Family,
    width: usize,
}

impl<'a, A: Arith + Sync> Search<'a, A> {
    spec fn wf(&self) -> bool {
        self.ar.repeatable() && self.width < usize::MAX
    }

    fn stage(
        &self,
        stage: Stage,
        gram: Option<Gram>,
        p: Params,
        score: Double,
        cache: &mut EnvelopeCache,
    ) -> (r: (Params, Double))
        requires
            self.wf(),
            fits(self.family, p.form),
            old(cache).wf(),
        ensures
            final(cache).wf(),
            fits(self.family, r.0.form),
            (Standing { p: r.0, score: r.1, cache: final(cache)@ }) == after_stage(
                self.ar,
                self.cfg,
                self.family,
                stage,
                gram,
                Standing { p, score, cache: old(cache)@ },
            ),
    {
        let (lo, hi) = self.ar.bracket(stage, p);
        let line = Line { ar: self.ar, cfg: self.cfg, family: self.family, stage, base: p, gram };
        golden(&line, lo, hi, self.cfg.golden_iters, score, self.width, cache)
    }

    /// Golden section works on a real line; polish the integer it landed between. All three onsets
    /// are scored together and committed in the serial order.
    fn polish(&self, gram: Option<Gram>, p: Params, score: Double, cache: &mut EnvelopeCache) -> (r: (
        Params,
        Double,
    ))
        requires
            self.wf(),
            fits(self.family, p.form),
            old(cache).wf(),
        ensures
            final(cache).wf(),
            fits(self.family, r.0.form),
            (Standing { p: r.0, score: r.1, cache: final(cache)@ }) == after_polish(
                self.ar,
                self.cfg,
                self.family,
                gram,
                Standing { p, score, cache: old(cache)@ },
            ),
    {
        let line = Line {
            ar: self.ar,
            cfg: self.cfg,
            family: self.family,
            stage: Stage::Onset(0),
            base: p,
            gram,
        };
        let earlier = Params { form: p.form, f: p.f, t0: hold_to_range(p.t0 as i128 - 1) };
        let later = Params { form: p.form, f: p.f, t0: hold_to_range(p.t0 as i128 + 1) };
        let mut near: Vec<Params> = Vec::new();
        near.push(earlier);
        near.push(later);
        near.push(p);
        let ghost was = cache@;
        let mut batch = line.speculate(cache, near.as_slice(), self.width);
        assert(since(line, was, cache@));
        let mut cur = p;
        let mut best = score;
        let mut second: usize = 1;
        let f = line.commit(cache, &mut batch, near.as_slice(), 0, self.width, Ghost(was));
        if best.lt(f) {
            cur = earlier;
            best = f;
            second = 2;
        }
        let f = line.commit(cache, &mut batch, near.as_slice(), second, self.width, Ghost(was));
        if best.lt(f) {
            cur = near[second];
            best = f;
        }
        (cur, best)
    }

    fn round(&self, radius: usize, p: Params, score: Double, cache: &mut EnvelopeCache) -> (r: (
        Params,
        Double,
    ))
        requires
            self.wf(),
            fits(self.family, p.form),
            old(cache).wf(),
        ensures
            final(cache).wf(),
            fits(self.family, r.0.form),
            (Standing { p: r.0, score: r.1, cache: final(cache)@ }) == after_round(
                self.ar,
                self.cfg,
                self.family,
                radius,
                Standing { p, score, cache: old(cache)@ },
            ),
    {
        let (p, score) = self.stage(Stage::Frequency, None, p, score, cache);
        let (p, score) = match self.family {
            Family::Fof { fade_level: _ } => {
                let (p, score) = self.stage(Stage::Alpha, None, p, score, cache);
                self.stage(Stage::Beta, None, p, score, cache)
            },
            Family::Gaussian { cutoff_level: _ } => self.stage(Stage::Sigma, None, p, score, cache),
        };
        // This is the one stage that holds both the envelope and the carrier fixed, so its Gram is
        // the same for every trial.
        let line = Line {
            ar: self.ar,
            cfg: self.cfg,
            family: self.family,
            stage: Stage::Onset(radius),
            base: p,
            gram: None,
        };
        let shape = line.shape_for(p);
        let gram = match cache.get(self.ar, self.cfg, shape) {
            Some(e) => Some(self.ar.gram(e, p.f)),
            None => None,
        };
        let (p, score) = self.stage(Stage::Onset(radius), gram, p, score, cache);
        self.polish(gram, p, score, cache)
    }

    fn full(&self, p: Params, cache: &mut EnvelopeCache) -> (r: Option<Projection>)
        requires
            self.wf(),
            fits(self.family, p.form),
            old(cache).wf(),
        ensures
            final(cache).wf(),
            (r, final(cache)@) == full_at(self.ar, self.cfg, self.family, p, old(cache)@),
    {
        let line = Line {
            ar: self.ar,
            cfg: self.cfg,
            family: self.family,
            stage: Stage::Frequency,
            base: p,
            gram: None,
        };
        let shape = line.shape_for(p);
        match cache.get(self.ar, self.cfg, shape) {
            Some(e) => self.ar.full(p, e),
            None => None,
        }
    }
}

/// Refine `cand` in place, scoring up to `width` trials at once. Returns whether the parameters moved.
///
/// The atom and the cache are those of a refinement one trial at a time, whatever the width. The seed
/// is always scored again, even where refinement declines: the incoming score came from the block's
/// own Gram, and mixing the two footings across candidates would make selection unfair.
pub fn refine_at_width<A: Arith + Sync>(
    cand: &mut Candidate,
    block: &Block,
    cfg: &RefineConfig,
    ar: &A,
    cache: &mut EnvelopeCache,
    width: usize,
) -> (r: bool)
    requires
        ar.repeatable(),
        width < usize::MAX,
        old(cache).wf(),
    ensures
        final(cache).wf(),
        ({
            let (family, form) = family_of(old(cand).atom.env);
            let out = refinement(
                ar,
                cfg,
                family,
                onset_radius(*cfg, block.hop as int) as usize,
                Params { form, f: old(cand).atom.f, t0: old(cand).atom.t0 },
                old(cache)@,
            );
            &&& final(cache)@ == out.cache
            &&& match out.adopted {
                None => !r && *final(cand) == *old(cand),
                Some((p, fit, moved)) => {
                    &&& r == moved
                    &&& *final(cand) == written(*old(cand), p, fit, moved)
                    &&& fits(family, p.form)
                },
            }
        }),
{
    let (family, form) = match cand.atom.env {
        Shape::Fof(p) => (
            Family::Fof { fade_level: p.fade_level },
            Form::Fof { alpha: p.alpha, beta: p.beta },
        ),
        Shape::Gaussian(g) => (
            Family::Gaussian { cutoff_level: g.cutoff_level },
            Form::Gaussian { sigma: g.sigma },
        ),
    };
    let search = Search { ar, cfg, family, width };
    let seed = Params { form, f: cand.atom.f, t0: cand.atom.t0 };
    let radius: usize = if cfg.t0_radius > 0 {
        cfg.t0_radius
    } else if block.hop / 2 >= 1 {
        block.hop / 2
    } else {
        1
    };
    let seed_fit = match search.full(seed, cache) {
        Some(fit) => fit,
        None => {
            return false;
        },
    };
    let line = Line { ar, cfg, family, stage: Stage::Frequency, base: seed, gram: None };
    let mut cur = seed;
    let mut cur_score = line.score_now(cache, seed);
    let ghost start = Standing { p: cur, score: cur_score, cache: cache@ };
    let mut left: usize = cfg.rounds;
    while left > 0
        invariant
            search.wf(),
            search.ar == ar,
            search.cfg == cfg,
            search.family == family,
            fits(family, cur.form),
            cache.wf(),
            after_rounds(
                ar,
                cfg,
                family,
                radius,
                left as int,
                Standing { p: cur, score: cur_score, cache: cache@ },
            ) == after_rounds(ar, cfg, family, radius, cfg.rounds as int, start),
        decreases left,
    {
        let round_start = cur_score;
        let (p, score) = search.round(radius, cur, cur_score, cache);
        cur = p;
        cur_score = score;
        left -= 1;
        if cur_score.le(ar.raised(round_start)) {
            left = 0;
        }
    }
    if equal_params(cur, seed) {
        adopt(cand, seed, seed_fit, false);
        return false;
    }
    match search.full(cur, cache) {
        Some(fit) => {
            if seed_fit.energy.lt(fit.energy) {
                adopt(cand, cur, fit, true);
                return true;
            }
        },
        None => {},
    }
    adopt(cand, seed, seed_fit, false);
    false
}

/// What refining a candidate of a block makes of it and of the cache.
pub open spec fn refines<A: Arith>(
    ar: &A,
    cfg: &RefineConfig,
    hop: int,
    before: Candidate,
    cache: CacheState,
    after: Candidate,
    left: CacheState,
) -> bool {
    let (family, form) = family_of(before.atom.env);
    let out = refinement(
        ar,
        cfg,
        family,
        onset_radius(*cfg, hop) as usize,
        Params { form, f: before.atom.f, t0: before.atom.t0 },
        cache,
    );
    &&& left == out.cache
    &&& match out.adopted {
        None => after == before,
        Some((p, fit, moved)) => after == written(before, p, fit, moved),
    }
}

/// Refine `cand` in place. Returns whether the parameters actually moved.
///
/// Trials of a long envelope are scored as many at once as the pool has workers, up to a limit. How
/// many that is cannot be seen in what comes back.
pub fn refine<A: Arith + Sync>(
    cand: &mut Candidate,
    block: &Block,
    cfg: &RefineConfig,
    ar: &A,
    cache: &mut EnvelopeCache,
) -> (r: bool)
    requires
        ar.repeatable(),
        old(cache).wf(),
    ensures
        final(cache).wf(),
        ({
            let (family, form) = family_of(old(cand).atom.env);
            let out = refinement(
                ar,
                cfg,
                family,
                onset_radius(*cfg, block.hop as int) as usize,
                Params { form, f: old(cand).atom.f, t0: old(cand).atom.t0 },
                old(cache)@,
            );
            &&& final(cache)@ == out.cache
            &&& match out.adopted {
                None => !r && *final(cand) == *old(cand),
                Some((p, fit, moved)) => {
                    &&& r == moved
                    &&& *final(cand) == written(*old(cand), p, fit, moved)
                    &&& fits(family, p.form)
                },
            }
        }),
{
    let width: usize = if block.support_len() >= PARALLEL_SUPPORT {
        let workers: usize = pool_size();
        if workers < 1 {
            1
        } else if workers > MAX_WIDTH {
            MAX_WIDTH
        } else {
            workers
        }
    } else {
        1
    };
    refine_at_width(cand, block, cfg, ar, cache, width)
}

/// Refinement never lowers the full-support score, and adopts nothing out of bounds.
pub proof fn law_refinement_never_loses<A: Arith>(
    ar: &A,
    cfg: &RefineConfig,
    family: Family,
    radius: usize,
    seed: Params,
    c: CacheState,
)
    ensures
        ({
            let out = refinement(ar, cfg, family, radius, seed, c).adopted;
            let before = full_at(ar, cfg, family, seed, c).0;
            &&& out is None <==> before is None
            &&& out matches Some((p, fit, moved)) ==> {
                &&& moved ==> before->0.energy.less(fit.energy)
                &&& !moved ==> p == seed && fit == before->0
                &&& admissible(ar, *cfg, shape_of(ar, family, p.form))
            }
        }),
{
}

/// A refined atom keeps its kind, and everything its kind does not search.
pub proof fn law_refinement_keeps_the_kind(cand: Candidate, p: Params, fit: Projection, refined: bool)
    requires
        fits(family_of(cand.atom.env).0, p.form),
    ensures
        ({
            let after = written(cand, p, fit, refined);
            &&& after.atom.env.family() == cand.atom.env.family()
            &&& family_of(after.atom.env) == (family_of(cand.atom.env).0, p.form)
            &&& cand.atom.env matches Shape::Fof(e) ==> (after.atom.env matches Shape::Fof(g)
                && g.fade_dur == e.fade_dur)
            &&& after.seed == cand.seed
            &&& after.hr_score == cand.hr_score
        }),
{
}

/// A carrier within the bounds a search is held to.
pub open spec fn in_band(cfg: RefineConfig, f: Single) -> bool {
    cfg.f_min.at_most(f) && f.at_most(cfg.f_max)
}

/// No further from zero than the largest finite `Single`.
pub open spec fn of_single_size(x: Double) -> bool {
    (Double { bits: 0xc7ef_ffff_e000_0000 }).at_most(x) && x.at_most(
        Double { bits: 0x47ef_ffff_e000_0000 },
    )
}

/// `x` is between `a` and `b`, whichever of the two is the lower.
pub open spec fn between(a: Double, x: Double, b: Double) -> bool {
    (a.at_most(x) && x.at_most(b)) || (b.at_most(x) && x.at_most(a))
}

/// An interior point lies between the two ends it is placed from. Only ends whose difference cannot
/// overflow are asked about.
pub open spec fn places_between<A: Arith>(ar: &A) -> bool {
    forall|a: Double, b: Double, left: bool|
        of_single_size(a) && of_single_size(b) ==> between(a, #[trigger] ar.place_of(a, b, left), b)
}

/// Widening keeps order and takes finite numbers, and no others, to the size of one; and narrowing keeps
/// to the side of a number that it comes from.
pub open spec fn narrows_in_order<R: Reals>(r: &R) -> bool {
    &&& forall|s: Single, t: Single|
        s.at_most(t) ==> (#[trigger] r.widen_of(s)).at_most(#[trigger] r.widen_of(t))
    &&& forall|s: Single| of_single_size(#[trigger] r.widen_of(s)) == s.finite()
    &&& forall|s: Single, x: Double|
        s.finite() && of_single_size(x) && (#[trigger] r.widen_of(s)).at_most(x) ==> s.at_most(
            #[trigger] r.narrow_of(x),
        )
    &&& forall|s: Single, x: Double|
        s.finite() && of_single_size(x) && x.at_most(#[trigger] r.widen_of(s)) ==> (
        #[trigger] r.narrow_of(x)).at_most(s)
}

/// A carrier is searched between finite ends, or not at all.
pub open spec fn finitely_bracketed<A: Arith>(ar: &A, p: Params) -> bool {
    let (lo, hi) = ar.bracket_of(Stage::Frequency, p);
    lo.less(hi) ==> of_single_size(lo) && of_single_size(hi)
}

/// So is the carrier of each of up to `n` rounds.
pub open spec fn stays_bracketed<A: Arith>(
    ar: &A,
    cfg: &RefineConfig,
    family: Family,
    radius: usize,
    n: int,
    s: Standing,
) -> bool
    decreases n,
{
    n > 0 ==> finitely_bracketed(ar, s.p) && stays_bracketed(
        ar,
        cfg,
        family,
        radius,
        n - 1,
        after_round(ar, cfg, family, radius, s),
    )
}

/// Where the rounds begin.
pub open spec fn start_of<A: Arith>(
    ar: &A,
    cfg: &RefineConfig,
    family: Family,
    seed: Params,
    c: CacheState,
) -> Standing {
    let (score, cache) = line_for(ar, cfg, family, Stage::Frequency, seed, None).score(
        full_at(ar, cfg, family, seed, c).1,
        seed,
    );
    Standing { p: seed, score, cache }
}

/// What a search for the carrier comes by, from a carrier in the band, is in the band.
spec fn tunes_in_band<A: Arith>(ar: &A, cfg: RefineConfig) -> bool {
    &&& places_between(ar)
    &&& forall|p: Params, x: Double|
        in_band(cfg, p.f) && finitely_bracketed(ar, p) ==> {
            let (lo, hi) = #[trigger] ar.bracket_of(Stage::Frequency, p);
            lo.less(hi) && lo.at_most(x) && x.at_most(hi) ==> in_band(
                cfg,
                #[trigger] ar.value_of(Stage::Frequency, x),
            )
        }
}

/// All four points of a section are in a range.
spec fn section_in(s: Section, lo: Double, hi: Double) -> bool {
    &&& lo.at_most(s.a) && s.a.at_most(hi)
    &&& lo.at_most(s.b) && s.b.at_most(hi)
    &&& lo.at_most(s.x1) && s.x1.at_most(hi)
    &&& lo.at_most(s.x2) && s.x2.at_most(hi)
}

proof fn lemma_walk_in_band<'a, A: Arith>(
    line: Line<'a, A>,
    lo: Double,
    hi: Double,
    c: CacheState,
    n: int,
)
    requires
        places_between(line.ar),
        in_band(*line.cfg, line.base.f),
        line.stage is Frequency ==> {
            &&& lo.less(hi)
            &&& of_single_size(lo)
            &&& of_single_size(hi)
            &&& forall|x: Double|
                lo.at_most(x) && x.at_most(hi) ==> in_band(
                    *line.cfg,
                    #[trigger] line.ar.value_of(Stage::Frequency, x),
                )
        },
    ensures
        ({
            let w = line.walked(line.opening(lo, hi, c), n);
            &&& in_band(*line.cfg, w.p1.f)
            &&& in_band(*line.cfg, w.p2.f)
            &&& line.stage is Frequency ==> section_in(w.sec, lo, hi)
        }),
    decreases n,
{
    if n > 0 {
        lemma_walk_in_band(line, lo, hi, c, n - 1);
    }
}

proof fn lemma_stage_in_band<A: Arith>(
    ar: &A,
    cfg: &RefineConfig,
    family: Family,
    stage: Stage,
    gram: Option<Gram>,
    s: Standing,
)
    requires
        tunes_in_band(ar, *cfg),
        in_band(*cfg, s.p.f),
        stage is Frequency ==> finitely_bracketed(ar, s.p),
    ensures
        in_band(*cfg, after_stage(ar, cfg, family, stage, gram, s).p.f),
{
    let (lo, hi) = ar.bracket_of(stage, s.p);
    if lo.less(hi) {
        let line = line_for(ar, cfg, family, stage, s.p, gram);
        lemma_walk_in_band(line, lo, hi, s.cache, cfg.golden_iters as int);
    }
}

proof fn lemma_round_in_band<A: Arith>(
    ar: &A,
    cfg: &RefineConfig,
    family: Family,
    radius: usize,
    s: Standing,
)
    requires
        tunes_in_band(ar, *cfg),
        in_band(*cfg, s.p.f),
        finitely_bracketed(ar, s.p),
    ensures
        in_band(*cfg, after_round(ar, cfg, family, radius, s).p.f),
{
    lemma_stage_in_band(ar, cfg, family, Stage::Frequency, None, s);
    let tuned = after_stage(ar, cfg, family, Stage::Frequency, None, s);
    let shaped = match family {
        Family::Fof { .. } => {
            lemma_stage_in_band(ar, cfg, family, Stage::Alpha, None, tuned);
            let sharp = after_stage(ar, cfg, family, Stage::Alpha, None, tuned);
            lemma_stage_in_band(ar, cfg, family, Stage::Beta, None, sharp);
            after_stage(ar, cfg, family, Stage::Beta, None, sharp)
        },
        Family::Gaussian { .. } => {
            lemma_stage_in_band(ar, cfg, family, Stage::Sigma, None, tuned);
            after_stage(ar, cfg, family, Stage::Sigma, None, tuned)
        },
    };
    let (gram, c) = onset_gram(ar, cfg, family, shaped);
    let held = Standing { cache: c, ..shaped };
    lemma_stage_in_band(ar, cfg, family, Stage::Onset(radius), gram, held);
}

proof fn lemma_rounds_in_band<A: Arith>(
    ar: &A,
    cfg: &RefineConfig,
    family: Family,
    radius: usize,
    n: int,
    s: Standing,
)
    requires
        tunes_in_band(ar, *cfg),
        in_band(*cfg, s.p.f),
        (forall|p: Params| in_band(*cfg, p.f) ==> #[trigger] finitely_bracketed(ar, p))
            || stays_bracketed(ar, cfg, family, radius, n, s),
    ensures
        in_band(*cfg, after_rounds(ar, cfg, family, radius, n, s).p.f),
    decreases n,
{
    if n > 0 {
        assert(finitely_bracketed(ar, s.p));
        lemma_round_in_band(ar, cfg, family, radius, s);
        let next = after_round(ar, cfg, family, radius, s);
        lemma_rounds_in_band(ar, cfg, family, radius, n - 1, next);
    }
}

/// A refined carrier stays within its bounds: whatever is adopted of a seed in the band is in the band,
/// and so is the candidate it is written to.
///
/// Interior points lie between the ends they are placed from, and narrowing keeps order. Where a bound
/// is infinite, the ends searched between must not be: between those no point can be placed.
pub proof fn law_a_refined_carrier_stays_in_band<'a, R, Render, Region, GramAt, Full>(
    ar: &crate::arith::Search<'a, R, Render, Region, GramAt, Full>,
    family: Family,
    radius: usize,
    seed: Params,
    c: CacheState,
) where
    R: Reals,
    Render: Fn(Shape) -> Option<Rendered>,
    Region: Fn(&[Single], Params, &Rendered, Option<Gram>) -> Double,
    GramAt: Fn(&Rendered, Single) -> Gram,
    Full: Fn(&[Single], Params, &Rendered) -> Option<Projection>,

    requires
        in_band(ar.cfg, seed.f),
        places_between(ar),
        narrows_in_order(ar.reals),
        (ar.cfg.f_min.finite() && ar.cfg.f_max.finite()) || stays_bracketed(
            ar,
            &ar.cfg,
            family,
            radius,
            ar.cfg.rounds as int,
            start_of(ar, &ar.cfg, family, seed, c),
        ),
    ensures
        refinement(ar, &ar.cfg, family, radius, seed, c).adopted matches Some((p, fit, moved)) ==> {
            &&& ar.cfg.f_min.at_most(p.f)
            &&& p.f.at_most(ar.cfg.f_max)
            &&& forall|cand: Candidate|
                in_band(ar.cfg, (#[trigger] written(cand, p, fit, moved)).atom.f)
        },
{
    let cfg = ar.cfg;
    assert forall|p: Params, x: Double|
        in_band(cfg, p.f) && finitely_bracketed(ar, p) implies ({
        let (lo, hi) = #[trigger] ar.bracket_of(Stage::Frequency, p);
        lo.less(hi) && lo.at_most(x) && x.at_most(hi) ==> in_band(
            cfg,
            #[trigger] ar.value_of(Stage::Frequency, x),
        )
    }) by {
        lemma_bracket(ar, p);
    }
    assert forall|p: Params|
        in_band(cfg, p.f) && cfg.f_min.finite() && cfg.f_max.finite() implies
        #[trigger] finitely_bracketed(ar, p) by {
        lemma_bracket(ar, p);
        let r = ar.reals;
        assert(of_single_size(r.widen_of(cfg.f_min)) && of_single_size(r.widen_of(cfg.f_max)));
    }
    let s = start_of(ar, &cfg, family, seed, c);
    lemma_rounds_in_band(ar, &cfg, family, radius, cfg.rounds as int, s);
}

/// The ends a carrier is searched between are those of two numbers in the band.
proof fn lemma_bracket<'a, R, Render, Region, GramAt, Full>(
    ar: &crate::arith::Search<'a, R, Render, Region, GramAt, Full>,
    p: Params,
) -> (ends: (Single, Single)) where
    R: Reals,
    Render: Fn(Shape) -> Option<Rendered>,
    Region: Fn(&[Single], Params, &Rendered, Option<Gram>) -> Double,
    GramAt: Fn(&Rendered, Single) -> Gram,
    Full: Fn(&[Single], Params, &Rendered) -> Option<Projection>,

    requires
        in_band(ar.cfg, p.f),
    ensures
        ar.bracket_of(Stage::Frequency, p) == (
            ar.reals.widen_of(ends.0),
            ar.reals.widen_of(ends.1),
        ),
        ar.cfg.f_min.at_most(ends.0),
        ends.1.at_most(ar.cfg.f_max),
{
    let r = ar.reals;
    let half = r.times_single_of(ar.bin_hz, ar.cfg.f_bracket_bins);
    let low = r.minus_single_of(p.f, half).larger(ar.cfg.f_min);
    let high = r.plus_single_of(p.f, half).smaller(ar.cfg.f_max);
    (low, high)
}

} // verus!
