//! What settings are accepted.

use crate::config::{first_unusable, settings_refusal, Config};
use crate::dict::{release_refusal, ReleasePolicy};
use crate::ieee::{Double, Single};
use crate::residual::config::{bank_refusal, runnable, ErbBankConfig, ResidualAnalysisConfig};
use crate::residual::math::BankMath;
use crate::residual::power::{complaint, ResidualPowerConfig};
use crate::rounding::{
    lemma_in_order, lemma_in_order_single, lemma_nothing_single, lemma_small_numbers,
};
use crate::units::Units;
use vstd::prelude::*;

verus! {

proof fn lemma_above_zero(x: Double)
    requires
        x.finite(),
    ensures
        x.positive() <==> 0real < x.value(),
{
    lemma_small_numbers();
    lemma_in_order(Double { bits: 0 }, x);
}

proof fn lemma_above_zero_single(x: Single)
    requires
        x.finite(),
    ensures
        x.above_zero() <==> 0real < x.value(),
{
    lemma_nothing_single();
    lemma_in_order_single(Single { bits: 0 }, x);
}

/// A release is accepted where its level is between zero and one, its scale above zero, and its shortest
/// duration above zero and no longer than its longest.
pub proof fn law_an_accepted_release_makes_sense(p: ReleasePolicy)
    requires
        p.fade_level.finite() && p.fade_dur_scale.finite(),
        p.fade_dur_min.finite() && p.fade_dur_max.finite(),
    ensures
        release_refusal(p) is None <==> {
            &&& 0real < p.fade_level.value() < 1real
            &&& 0real < p.fade_dur_scale.value()
            &&& 0real < p.fade_dur_min.value() <= p.fade_dur_max.value()
        },
{
    lemma_small_numbers();
    lemma_above_zero_single(p.fade_level);
    lemma_above_zero_single(p.fade_dur_scale);
    lemma_above_zero_single(p.fade_dur_min);
    lemma_in_order_single(p.fade_level, Single { bits: 0x3f80_0000 });
    lemma_in_order_single(p.fade_dur_min, p.fade_dur_max);
}

/// A bank is accepted with four bands or more, sections of an order from one to eight, and a range of
/// frequencies above zero that has a width.
pub proof fn law_an_accepted_bank_can_be_laid_out(c: ErbBankConfig)
    requires
        c.min_freq_hz.finite() && c.max_freq_hz.finite(),
    ensures
        bank_refusal(c) is None <==> {
            &&& 4 <= c.bands
            &&& 1 <= c.filter_order <= 8
            &&& 0real < c.min_freq_hz.value() < c.max_freq_hz.value()
        },
{
    lemma_above_zero(c.min_freq_hz);
    lemma_in_order(c.min_freq_hz, c.max_freq_hz);
}

/// Detectors' times are accepted where each is above zero, and the shortest is no longer than the longest.
pub proof fn law_accepted_times_are_in_order<M: BankMath>(m: &M, c: ResidualPowerConfig)
    requires
        c.fixed_tau_seconds.finite() && c.bandwidth_tau_scale.finite(),
        c.tau_min_seconds.finite() && c.tau_max_seconds.finite(),
    ensures
        complaint(m, c) is None <==> {
            &&& 0real < c.fixed_tau_seconds.value()
            &&& 0real < c.bandwidth_tau_scale.value()
            &&& 0real < c.tau_min_seconds.value() <= c.tau_max_seconds.value()
        },
{
    lemma_above_zero(c.fixed_tau_seconds);
    lemma_above_zero(c.bandwidth_tau_scale);
    lemma_above_zero(c.tau_min_seconds);
    lemma_above_zero(c.tau_max_seconds);
    lemma_in_order(c.tau_max_seconds, c.tau_min_seconds);
}

/// An analysis that can be run looks at least once a sample, and at no frequency that its sample rate cannot
/// hold.
pub proof fn law_a_runnable_analysis_stays_under_the_limit<M: BankMath>(
    m: &M,
    c: ResidualAnalysisConfig,
    sample_rate: Double,
)
    requires
        runnable(m, c, sample_rate),
        m.limit_of(sample_rate).finite(),
    ensures
        0real < sample_rate.value(),
        1 <= c.update_samples,
        4 <= c.erb.bands,
        1 <= c.erb.filter_order <= 8,
        0real < c.erb.min_freq_hz.value() < c.erb.max_freq_hz.value(),
        c.erb.max_freq_hz.value() < m.limit_of(sample_rate).value(),
{
    lemma_above_zero(sample_rate);
    law_an_accepted_bank_can_be_laid_out(c.erb);
    lemma_in_order(m.limit_of(sample_rate), c.erb.max_freq_hz);
}

proof fn lemma_all_usable(v: Seq<Single>, from: int, i: int)
    requires
        0 <= from <= i < v.len(),
        first_unusable(v, from) >= v.len(),
    ensures
        v[i].finite() && v[i].above_zero(),
    decreases v.len() - from,
{
    if from < i {
        lemma_all_usable(v, from + 1, i);
    }
}

/// A document that is accepted asks for something, and for nothing that cannot be: it has a shape, its widths
/// are above zero, its ranges have a width, its fractions are fractions and it allows some memory.
pub proof fn law_an_accepted_document_makes_sense<U: Units, M: BankMath>(u: &U, m: &M, c: Config, i: int)
    requires
        settings_refusal(u, m, c) is None,
    ensures
        c.all_shapes(u).len() > 0,
        0 <= i < c.dictionary.gaussian.sigmas_ms@.len() ==> c.dictionary.gaussian.sigmas_ms@[i].finite()
            && 0real < c.dictionary.gaussian.sigmas_ms@[i].value(),
        c.dictionary.gaussian.cutoff_level.finite() ==> 0real
            < c.dictionary.gaussian.cutoff_level.value() < 1real,
        c.refine.sigma_min_ms.finite() ==> 0real < c.refine.sigma_min_ms.value()
            <= c.refine.sigma_max_ms.value(),
        c.blocks.f_max.finite() ==> c.blocks.f_min.value() < c.blocks.f_max.value(),
        c.blocks.capture_tolerance.finite() ==> 0real < c.blocks.capture_tolerance.value() < 1real,
        c.pursuit.max_memory_mb >= 1,
        0real <= c.pursuit.window_seconds.value(),
        release_refusal(c.envelope.policy(u)) is None,
        c.residual.enabled ==> {
            &&& bank_refusal(c.residual.erb.resolved()) is None
            &&& complaint(m, c.residual.power.resolved(u)) is None
            &&& c.residual.update_ms.finite() && 0real < c.residual.update_ms.value()
        },
{
    let g = c.dictionary.gaussian;
    lemma_small_numbers();
    lemma_nothing_single();
    if 0 <= i < g.sigmas_ms@.len() {
        lemma_all_usable(g.sigmas_ms@, 0, i);
        lemma_above_zero_single(g.sigmas_ms@[i]);
    }
    if g.cutoff_level.finite() {
        lemma_above_zero_single(g.cutoff_level);
        lemma_in_order_single(g.cutoff_level, Single { bits: 0x3f80_0000 });
    }
    if c.refine.sigma_min_ms.finite() {
        lemma_above_zero_single(c.refine.sigma_min_ms);
        lemma_in_order_single(c.refine.sigma_min_ms, c.refine.sigma_max_ms);
    }
    if c.blocks.f_max.finite() {
        lemma_in_order_single(c.blocks.f_min, c.blocks.f_max);
    }
    if c.blocks.capture_tolerance.finite() {
        lemma_above_zero(c.blocks.capture_tolerance);
        lemma_in_order(c.blocks.capture_tolerance, Double { bits: 0x3ff0_0000_0000_0000 });
    }
    lemma_in_order_single(Single { bits: 0 }, c.pursuit.window_seconds);
    if c.residual.enabled {
        lemma_above_zero(c.residual.update_ms);
    }
}

} // verus!
