//! How a golden-section search closes in.

use crate::arith::{log_bracket_of, Arith};
use crate::golden::{Line, Walk};
use crate::ieee::Single;
use crate::reals::Reals;
use crate::refine::{onset_radius, RefineConfig};
use crate::rounding::{lemma_in_order_single, lemma_small_numbers};
use vstd::prelude::*;

verus! {

/// A step of a search keeps the better of its two points, and its score, inside the bracket, and makes the
/// worse one an end: of two that score the same the left is kept.
pub proof fn law_a_step_keeps_the_better_point<'a, A: Arith>(line: Line<'a, A>, w: Walk)
    ensures
        ({
            let v = line.advanced(w);
            if w.f2.at_most(w.f1) {
                &&& (v.sec.a, v.sec.b) == (w.sec.a, w.sec.x2)
                &&& v.sec.x2 == w.sec.x1 && v.p2 == w.p1 && v.f2 == w.f1
                &&& v.p1 == line.at(v.sec.x1)
                &&& v.f1 == line.score(w.cache, v.p1).0
            } else {
                &&& (v.sec.a, v.sec.b) == (w.sec.x1, w.sec.b)
                &&& v.sec.x1 == w.sec.x2 && v.p1 == w.p2 && v.f1 == w.f2
                &&& v.p2 == line.at(v.sec.x2)
                &&& v.f2 == line.score(w.cache, v.p2).0
            }
        }),
{
}

/// An onset is searched as far as the settings say, or half a hop where they say nothing, and at least a
/// sample.
pub proof fn law_an_onset_is_searched_half_a_hop(cfg: RefineConfig, hop: int)
    requires
        hop >= 0,
    ensures
        onset_radius(cfg, hop) >= 1,
        cfg.t0_radius > 0 ==> onset_radius(cfg, hop) == cfg.t0_radius,
        cfg.t0_radius == 0 && hop >= 2 ==> 2 * onset_radius(cfg, hop) <= hop < 2 * (onset_radius(
            cfg,
            hop,
        ) + 1),
{
}

/// A bracket never shrinks past where it stands: a factor below one is taken for one.
pub proof fn law_a_factor_below_one_is_one<R: Reals>(
    r: &R,
    x: Single,
    factor: Single,
    min: Single,
    max: Single,
)
    requires
        factor.finite(),
        factor.value() < 1real,
    ensures
        log_bracket_of(r, x, factor, min, max) == log_bracket_of(
            r,
            x,
            Single { bits: 0x3f80_0000 },
            min,
            max,
        ),
{
    let one = Single { bits: 0x3f80_0000 };
    lemma_small_numbers();
    lemma_in_order_single(one, factor);
}

} // verus!
