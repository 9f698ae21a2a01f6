//! What a cache of renders may be trusted with.

use crate::arith::Arith;
use crate::atom::Shape;
use crate::cache::{admissible, code, cost, entry_for, law_codes_are_keys, looked_up, CacheState};
use crate::arith::Drawn;
use crate::refine::RefineConfig;
use crate::rounding::lemma_in_order_single;
use vstd::prelude::*;

verus! {

/// Of some shapes, no two that differ are remembered under one code.
pub open spec fn told_apart(some: spec_fn(Shape) -> bool) -> bool {
    forall|a: Shape, b: Shape| #[trigger] some(a) && #[trigger] some(b) && a.key() == b.key() ==> a == b
}

/// A cache holds nothing but the renders of some shapes.
pub open spec fn is_faithful<A: Arith>(
    ar: &A,
    cfg: RefineConfig,
    c: CacheState,
    some: spec_fn(Shape) -> bool,
) -> bool {
    forall|s: Shape| #[trigger]
        some(s) && c.entries.dom().contains(code(s)) ==> c.entries[code(s)] == entry_for(ar, cfg, s)
}

/// Looking a shape up gives what rendering it would, or nothing where it may not be considered, whatever the
/// cache remembers; and what it then remembers is as true. The shapes are such as its codes tell apart.
pub proof fn law_a_lookup_is_a_render<A: Arith>(
    ar: &A,
    cfg: RefineConfig,
    c: CacheState,
    some: spec_fn(Shape) -> bool,
    shape: Shape,
)
    requires
        told_apart(some),
        is_faithful(ar, cfg, c, some),
        some(shape),
    ensures
        looked_up(ar, cfg, c, shape).0 == if admissible(ar, cfg, shape) {
            entry_for(ar, cfg, shape)
        } else {
            None
        },
        is_faithful(ar, cfg, looked_up(ar, cfg, c, shape).1, some),
{
    let after = looked_up(ar, cfg, c, shape).1;
    assert forall|s: Shape| #[trigger] some(s) && after.entries.dom().contains(code(s)) implies after.entries[code(
        s,
    )] == entry_for(ar, cfg, s) by {
        law_codes_are_keys(s, shape);
        if code(s) == code(shape) {
            assert(s == shape);
        }
    }
}

/// A render that is kept is of a shape that could be rendered, and no longer than refinement may make one.
pub proof fn law_a_kept_render_is_short_enough<A: Arith>(ar: &A, cfg: RefineConfig, shape: Shape)
    ensures
        entry_for(ar, cfg, shape) matches Some(e) ==> ar.rendered(shape) == Some(e)
            && e.env.samples.len() <= cfg.max_atom_samples,
        ar.rendered(shape) matches Some(e) ==> (e.env.samples.len() <= cfg.max_atom_samples ==> entry_for(
            ar,
            cfg,
            shape,
        ) == Some(e)),
{
}

/// A cache stays within its budget, but for a single render that is longer than all of it.
pub proof fn law_a_cache_stays_in_its_budget(c: CacheState, k: u128, e: Option<Drawn>)
    requires
        0 <= c.samples,
    ensures
        c.stored(k, e).samples <= c.budget || c.stored(k, e).samples == cost(e),
        c.stored(k, e).budget == c.budget,
        c.stored(k, e).entries.dom().contains(k) && c.stored(k, e).entries[k] == e,
        c.samples + cost(e) <= c.budget ==> c.stored(k, e).entries == c.entries.insert(k, e),
{
}

/// Refinement considers a FOF whose decay rate and attack, and their product, are within the settings, and a
/// Gaussian whose deviation is.
pub proof fn law_refinement_keeps_to_the_settings<A: Arith>(ar: &A, cfg: RefineConfig, shape: Shape)
    requires
        match shape {
            Shape::Fof(p) => {
                &&& p.alpha.finite() && p.beta.finite() && ar.product_of(p.alpha, p.beta).finite()
                &&& cfg.alpha_min.finite() && cfg.alpha_max.finite() && cfg.beta_min.finite()
                &&& cfg.beta_max.finite() && cfg.alpha_beta_max.finite()
            },
            Shape::Gaussian(g) => g.sigma.finite() && cfg.sigma_min.finite() && cfg.sigma_max.finite(),
        },
    ensures
        admissible(ar, cfg, shape) <==> match shape {
            Shape::Fof(p) => {
                &&& cfg.alpha_min.value() <= p.alpha.value() <= cfg.alpha_max.value()
                &&& cfg.beta_min.value() <= p.beta.value() <= cfg.beta_max.value()
                &&& ar.product_of(p.alpha, p.beta).value() <= cfg.alpha_beta_max.value()
            },
            Shape::Gaussian(g) => cfg.sigma_min.value() <= g.sigma.value() <= cfg.sigma_max.value(),
        },
{
    match shape {
        Shape::Fof(p) => {
            lemma_in_order_single(cfg.alpha_min, p.alpha);
            lemma_in_order_single(p.alpha, cfg.alpha_max);
            lemma_in_order_single(cfg.beta_min, p.beta);
            lemma_in_order_single(p.beta, cfg.beta_max);
            lemma_in_order_single(ar.product_of(p.alpha, p.beta), cfg.alpha_beta_max);
        },
        Shape::Gaussian(g) => {
            lemma_in_order_single(cfg.sigma_min, g.sigma);
            lemma_in_order_single(g.sigma, cfg.sigma_max);
        },
    }
}

} // verus!
