//! The release a seed's search gives its trials.

use crate::arith::seed_policy_of;
use crate::atom::EnvelopeParams;
use crate::reals::Reals;
use crate::refine::RefineConfig;
use crate::rounding::{
    close, least, lemma_close_to_itself, lemma_larger_single, lemma_over_single,
    lemma_times_single, most, rounds, tame,
};
use vstd::prelude::*;

verus! {

/// A search's trials get the release its seed's own policy would give them: the scale is the seed's duration
/// times its decay rate, and the durations range as far as the decay rates searched ask for, and over the
/// seed's own.
pub proof fn law_trials_release_as_their_seed_does<R: Reals>(r: &R, env: EnvelopeParams, cfg: RefineConfig)
    requires
        rounds(r),
        env.fade_dur.finite() && env.alpha.finite(),
        cfg.alpha_min.finite() && cfg.alpha_max.finite(),
        0real < env.fade_dur.value() && 0real < env.alpha.value(),
        0real < cfg.alpha_min.value() && 0real < cfg.alpha_max.value(),
        tame(env.fade_dur.value() * env.alpha.value()),
        tame(env.fade_dur.value() * env.alpha.value() / cfg.alpha_min.value()),
        tame(env.fade_dur.value() * env.alpha.value() / cfg.alpha_max.value()),
    ensures
        ({
            let p = seed_policy_of(r, env, cfg);
            let scale = env.fade_dur.value() * env.alpha.value();
            &&& p.fade_level == env.fade_level
            &&& p.fade_dur_scale.finite() && close(p.fade_dur_scale.value(), scale, 3)
            &&& p.fade_dur_min.finite() && p.fade_dur_max.finite()
            &&& p.fade_dur_min.value() <= env.fade_dur.value() <= p.fade_dur_max.value()
            &&& exists|shortest: real, longest: real|
                {
                    &&& #[trigger] close(shortest, scale / cfg.alpha_max.value(), 7)
                    &&& #[trigger] close(longest, scale / cfg.alpha_min.value(), 7)
                    &&& p.fade_dur_min.value() == least(shortest, env.fade_dur.value())
                    &&& p.fade_dur_max.value() == most(longest, env.fade_dur.value())
                }
        }),
{
    let (d, a) = (env.fade_dur.value(), env.alpha.value());
    let (lo, hi) = (cfg.alpha_min.value(), cfg.alpha_max.value());
    lemma_close_to_itself(d, 0);
    lemma_close_to_itself(a, 0);
    lemma_close_to_itself(lo, 0);
    lemma_close_to_itself(hi, 0);
    lemma_times_single(r, env.fade_dur, env.alpha, d, a, 0, 0);
    let scale = r.times_single_of(env.fade_dur, env.alpha);
    lemma_over_single(r, scale, cfg.alpha_max, d * a, hi, 3, 0);
    lemma_over_single(r, scale, cfg.alpha_min, d * a, lo, 3, 0);
    let (short, long) = (r.over_single_of(scale, cfg.alpha_max), r.over_single_of(scale, cfg.alpha_min));
    lemma_larger_single(short, env.fade_dur);
    lemma_larger_single(long, env.fade_dur);
    assert(close(short.value(), d * a / hi, 7) && close(long.value(), d * a / lo, 7));
}

} // verus!
