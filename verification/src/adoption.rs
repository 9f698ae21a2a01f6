//! What refinement and validation write into a candidate.

use crate::arith::{Form, Params};
use crate::atom::Shape;
use crate::cand::Candidate;
use crate::corr::Projection;
use crate::pursuit::{judged, Verdict};
use crate::refine::written;
use vstd::prelude::*;

verus! {

/// A refined candidate has the parameters that were found and the fit that was made with them: the onset and
/// the carrier of the one, the amplitude, phase and energy of the other. Its seed, its kind and what was not
/// searched stay as they were.
pub proof fn law_a_refined_candidate_has_what_was_found(
    cand: Candidate,
    p: Params,
    fit: Projection,
    refined: bool,
)
    ensures
        ({
            let c = written(cand, p, fit, refined);
            &&& (c.atom.t0, c.atom.f) == (p.t0, p.f)
            &&& (c.atom.amp, c.atom.phi, c.mp_score) == (fit.amp, fit.phi, fit.energy)
            &&& (c.seed, c.hr_score) == (cand.seed, cand.hr_score)
            &&& c.refined == refined
            &&& match (cand.atom.env, c.atom.env) {
                (Shape::Fof(a), Shape::Fof(b)) => {
                    &&& (b.fade_level, b.fade_dur) == (a.fade_level, a.fade_dur)
                    &&& p.form matches Form::Fof { alpha, beta } ==> (b.alpha, b.beta) == (alpha, beta)
                    &&& p.form is Gaussian ==> a == b
                },
                (Shape::Gaussian(a), Shape::Gaussian(b)) => {
                    &&& b.cutoff_level == a.cutoff_level
                    &&& p.form matches Form::Gaussian { sigma } ==> b.sigma == sigma
                    &&& p.form is Fof ==> a == b
                },
                _ => false,
            }
        }),
{
}

/// A validated candidate has the amplitude and the energy of its verdict, and nothing else of it is changed;
/// one that does not stand, or that there is no verdict on, is rejected.
pub proof fn law_a_verdict_sets_amplitude_and_score(cand: Candidate, v: Verdict)
    ensures
        judged(cand, None) is None,
        judged(cand, Some(v)) is Some <==> v.stands(),
        judged(cand, Some(v)) matches Some(c) ==> {
            &&& c.atom.amp == v.amp
            &&& c.hr_score == Some(v.energy)
            &&& (c.atom.t0, c.atom.f, c.atom.phi, c.atom.env) == (
                cand.atom.t0,
                cand.atom.f,
                cand.atom.phi,
                cand.atom.env,
            )
            &&& (c.seed, c.mp_score, c.refined) == (cand.seed, cand.mp_score, cand.refined)
        },
{
}

} // verus!
