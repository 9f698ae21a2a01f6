//! The pursuit loop's decisions.
//!
//! The loop alternates arithmetic on samples and decisions, which are here. Each call of a [`Run`]
//! takes what was found and says what to do next; see [`Action`].
//!
//! `max_atoms` bounds *selected* atoms, not iterations: an iteration in which every candidate is
//! rejected adds nothing to the book and is charged to [`MpConfig::max_stalls`] instead. A rejected
//! candidate's frame is demoted in the tables, whether or not another candidate was selected, or the
//! next iteration would promote the same doomed seed again.

use crate::arith::Arith;
use crate::atom::AtomParams;
use crate::cache::{CacheState, EnvelopeCache};
use crate::cand::{selection, Candidate, Seed};
use crate::corr::Projection;
use crate::dict::Block;
use crate::ieee::{Double, Single, ZERO};
use crate::mp::{Candidates, Mp};
use crate::reals::Reals;
use crate::rounding::{near, size, steady};
use crate::refine::{refine, refines, RefineConfig};
use vstd::prelude::*;

verus! {

#[derive(Clone, Copy, Debug, PartialEq, Eq, Structural)]
pub struct MpConfig {
    pub max_atoms: usize,
    /// Stop once this reconstruction SNR is reached.
    pub target_snr_db: Single,
    /// Stop when the best atom would remove less than this fraction of the current residual.
    pub min_gain_fraction: Double,
    /// How many local maxima to promote per iteration.
    pub candidate_count: usize,
    /// Local refinement of the promoted candidates.
    pub refine: RefineConfig,
    /// Whether refined candidates are validated on their local support.
    pub hrmp: bool,
    /// Give up after this many consecutive iterations in which every candidate was rejected.
    pub max_stalls: usize,
    /// Recompute every frame each iteration instead of only the stale ones.
    pub full_update: bool,
}

impl MpConfig {
    /// The plain pursuit.
    pub open spec fn standard() -> MpConfig {
        MpConfig {
            max_atoms: 1000,
            target_snr_db: Single { bits: 0x41f0_0000 },
            min_gain_fraction: Double { bits: 0x3e11_2e0b_e826_d695 },
            candidate_count: 1,
            refine: RefineConfig { enabled: false, ..RefineConfig::standard() },
            hrmp: false,
            max_stalls: 4096,
            full_update: false,
        }
    }
}

impl Default for MpConfig {
    fn default() -> (r: MpConfig)
        ensures
            r == MpConfig::standard(),
    {
        let mut refine = RefineConfig::default();
        refine.enabled = false;
        MpConfig {
            max_atoms: 1000,
            target_snr_db: Single { bits: 0x41f0_0000 },
            min_gain_fraction: Double { bits: 0x3e11_2e0b_e826_d695 },
            candidate_count: 1,
            refine,
            hrmp: false,
            max_stalls: 4096,
            full_update: false,
        }
    }
}

/// One atom of a book, with its provenance.
#[derive(Clone, Copy, Debug, PartialEq, Eq, Structural)]
pub struct Selection {
    pub atom: AtomParams,
    /// The seed: the grid point the candidate stage proposed, before refinement moved it.
    pub block: usize,
    pub onset: usize,
    pub bin: usize,
    pub projected_energy: Double,
    pub energy_removed: Double,
    pub residual_energy: Double,
    pub hr_score: Option<Double>,
    pub refined: bool,
}

/// What local-support validation made of a candidate.
#[derive(Clone, Copy, Debug, PartialEq, Eq, Structural)]
pub struct Verdict {
    pub accepted: bool,
    /// The energy removed once the amplitude is clamped.
    pub energy: Double,
    /// The clamped amplitude.
    pub amp: Single,
}

impl Verdict {
    /// The candidate stands: it was accepted, and something is removed.
    pub open spec fn stands(self) -> bool {
        self.accepted && !self.energy.at_most(Double { bits: 0 })
    }
}

/// Apply a verdict to its candidate, and say whether the candidate stands. A candidate that could not
/// be validated at all does not.
///
/// The phase is held at the ordinary fit's; only the amplitude is clamped.
pub fn apply_hrmp(cand: &mut Candidate, verdict: Option<Verdict>) -> (r: bool)
    ensures
        r == (verdict matches Some(v) && v.stands()),
        *final(cand) == if r {
            Candidate {
                atom: AtomParams { amp: verdict->0.amp, ..old(cand).atom },
                hr_score: Some(verdict->0.energy),
                ..*old(cand)
            }
        } else {
            *old(cand)
        },
{
    match verdict {
        Some(v) => {
            if !v.accepted || v.energy.le(Double { bits: 0 }) {
                return false;
            }
            cand.atom.amp = v.amp;
            cand.hr_score = Some(v.energy);
            true
        },
        None => false,
    }
}

/// What came of scoring one seed exactly.
#[derive(Clone, Copy, Debug, PartialEq, Eq, Structural)]
pub struct Scored {
    pub seed: Seed,
    /// The seed's captured energy, recomputed.
    pub energy: Double,
    /// The refined and validated candidate, or `None` where validation rejected it.
    pub outcome: Option<Candidate>,
}

impl Scored {
    /// The seed still captures something.
    pub open spec fn considered(self) -> bool {
        !self.energy.at_most(Double { bits: ZERO })
    }

    /// The seed was scored and did not survive, so its frame must be demoted.
    pub open spec fn rejected(self) -> bool {
        self.considered() && match self.outcome {
            Some(c) => c.ranked_by().at_most(Double { bits: ZERO }),
            None => true,
        }
    }

    /// The candidate that may be selected.
    pub open spec fn survivor(self) -> Option<Candidate> {
        if self.considered() && !self.rejected() {
            self.outcome
        } else {
            None
        }
    }
}

/// What a verdict leaves of a candidate.
pub open spec fn judged(cand: Candidate, verdict: Option<Verdict>) -> Option<Candidate> {
    match verdict {
        Some(v) => if v.stands() {
            Some(
                Candidate {
                    atom: AtomParams { amp: v.amp, ..cand.atom },
                    hr_score: Some(v.energy),
                    ..cand
                },
            )
        } else {
            None
        },
        None => None,
    }
}

/// A candidate as it goes into validation: refined, or as it was seeded.
pub open spec fn prepared<A: Arith>(
    ar: &A,
    cfg: MpConfig,
    hop: int,
    start: Candidate,
    cache: CacheState,
    cand: Candidate,
    left: CacheState,
) -> bool {
    if cfg.refine.enabled {
        refines(ar, &cfg.refine, hop, start, cache, cand, left)
    } else {
        cand == start && left == cache
    }
}

/// What validation leaves of a candidate, where it is asked for.
pub open spec fn validated<J: Fn(&[Single], Candidate) -> Option<Verdict>>(
    judge: &J,
    residual: &[Single],
    asked: bool,
    cand: Candidate,
    outcome: Option<Candidate>,
) -> bool {
    if asked {
        exists|verdict: Option<Verdict>| #[trigger]
            call_ensures(*judge, (residual, cand), verdict) && outcome == judged(cand, verdict)
    } else {
        outcome == Some(cand)
    }
}

/// What scoring a seed comes to: its frame's best bin `k` and projection `p`, refined and validated
/// as configured.
pub open spec fn seed_scored<R: Reals, A: Arith, J: Fn(&[Single], Candidate) -> Option<Verdict>>(
    r: &R,
    block: Block,
    residual: &[Single],
    seed: Seed,
    found: (usize, Projection),
    cfg: MpConfig,
    ar: &A,
    judge: &J,
    cache: CacheState,
    left: CacheState,
    answer: Scored,
) -> bool {
    let (k, p) = found;
    &&& answer.seed == seed
    &&& answer.energy == p.energy
    &&& if p.energy.at_most(Double { bits: ZERO }) {
        answer.outcome is None && left == cache
    } else {
        let start = Candidate::seeded(r, Seed { bin: k, ..seed }, block, p.amp, p.phi, p.energy);
        exists|cand: Candidate|
            {
                &&& #[trigger] prepared(ar, cfg, block.hop as int, start, cache, cand, left)
                &&& validated(judge, residual, cfg.hrmp, cand, answer.outcome)
            }
    }
}

/// Score one seed: seed a candidate from its frame's best bin, refine it off the grid, and validate
/// its local support.
pub fn score_seed<R: Reals, A: Arith + Sync, J: Fn(&[Single], Candidate) -> Option<Verdict>>(
    r: &R,
    block: &Block,
    residual: &[Single],
    seed: Seed,
    found: (usize, Projection),
    cfg: &MpConfig,
    ar: &A,
    judge: &J,
    cache: &mut EnvelopeCache,
) -> (answer: Scored)
    requires
        r.repeatable(),
        ar.repeatable(),
        old(cache).wf(),
        seed.onset <= i64::MAX,
        forall|c: Candidate| #[trigger] call_requires(*judge, (residual, c)),
    ensures
        final(cache).wf(),
        seed_scored(
            r,
            *block,
            residual,
            seed,
            found,
            *cfg,
            ar,
            judge,
            old(cache)@,
            final(cache)@,
            answer,
        ),
{
    let (k, p) = found;
    if p.energy.le(Double { bits: ZERO }) {
        return Scored { seed, energy: p.energy, outcome: None };
    }
    let at = Seed { bin: k, ..seed };
    let mut cand = Candidate::from_seed(r, at, block, p.amp, p.phi, p.energy);
    let ghost start = cand;
    if cfg.refine.enabled {
        refine(&mut cand, block, &cfg.refine, ar, cache);
    }
    let ghost drawn = cand;
    assert(prepared(ar, *cfg, block.hop as int, start, old(cache)@, drawn, cache@));
    let outcome = if cfg.hrmp {
        let verdict = judge(residual, cand);
        if apply_hrmp(&mut cand, verdict) {
            Some(cand)
        } else {
            None
        }
    } else {
        Some(cand)
    };
    assert(validated(judge, residual, cfg.hrmp, drawn, outcome));
    Scored { seed, energy: p.energy, outcome }
}

/// The outcome of scoring one iteration's candidates.
pub struct Chosen {
    pub best: Option<Candidate>,
    /// Frames whose stored energy must be lowered because their candidate was rejected outright.
    pub demote: Vec<(usize, usize)>,
}

/// The best of the first `n`: a later survivor wins only by a strictly greater score.
pub open spec fn best_of(scored: Seq<Scored>, n: int) -> Option<Candidate>
    decreases n,
{
    if n <= 0 {
        None
    } else {
        let best = best_of(scored, n - 1);
        match (scored[n - 1].survivor(), best) {
            (None, _) => best,
            (Some(c), None) => Some(c),
            (Some(c), Some(b)) => if b.ranked_by().less(c.ranked_by()) {
                Some(c)
            } else {
                Some(b)
            },
        }
    }
}

/// The frames of the rejected among the first `n`, in order.
pub open spec fn rejects(scored: Seq<Scored>, n: int) -> Seq<(usize, usize)>
    decreases n,
{
    if n <= 0 {
        Seq::empty()
    } else if scored[n - 1].rejected() {
        rejects(scored, n - 1).push((scored[n - 1].seed.block, scored[n - 1].seed.frame))
    } else {
        rejects(scored, n - 1)
    }
}

/// The best candidate, and the frames of those rejected.
pub fn best_candidate(scored: &[Scored]) -> (r: Chosen)
    ensures
        r.best == best_of(scored@, scored@.len() as int),
        r.demote@ == rejects(scored@, scored@.len() as int),
{
    let mut best: Option<Candidate> = None;
    let mut demote: Vec<(usize, usize)> = Vec::new();
    let mut n: usize = 0;
    while n < scored.len()
        invariant
            n <= scored@.len(),
            best == best_of(scored@, n as int),
            demote@ == rejects(scored@, n as int),
        decreases scored@.len() - n,
    {
        let s = scored[n];
        n += 1;
        if s.energy.le(Double { bits: ZERO }) {
            continue;
        }
        let cand = match s.outcome {
            Some(c) => c,
            None => {
                demote.push((s.seed.block, s.seed.frame));
                continue;
            },
        };
        if cand.score().le(Double { bits: ZERO }) {
            demote.push((s.seed.block, s.seed.frame));
            continue;
        }
        let better = match best {
            Some(b) => b.score().lt(cand.score()),
            None => true,
        };
        if better {
            best = Some(cand);
        }
    }
    Chosen { best, demote }
}

/// The selected candidate survived, and no survivor outscores it; of equals the earliest is taken.
pub proof fn law_best_candidate_is_the_strongest(scored: Seq<Scored>, n: int, i: int)
    requires
        0 <= i < n <= scored.len(),
        forall|j: int|
            0 <= j < n && (#[trigger] scored[j]).survivor() is Some
                ==> !scored[j].survivor()->0.ranked_by().nan(),
        scored[i].survivor() is Some,
    ensures
        ({
            let best = best_of(scored, n);
            &&& best is Some
            &&& scored[i].survivor()->0.ranked_by().at_most(best->0.ranked_by())
            &&& exists|j: int|
                0 <= j < n && (#[trigger] scored[j]).survivor() == best && (i < j
                    ==> scored[i].survivor()->0.ranked_by().less(best->0.ranked_by()))
        }),
    decreases n,
{
    lemma_best_of(scored, n);
    let best = best_of(scored, n);
    let j = choose|j: int|
        0 <= j < n && (#[trigger] scored[j]).survivor() == best && forall|m: int|
            0 <= m < j && (#[trigger] scored[m]).survivor() is Some
                ==> scored[m].survivor()->0.ranked_by().less(best->0.ranked_by());
    assert(scored[j].survivor() == best);
}

proof fn lemma_best_of(scored: Seq<Scored>, n: int)
    requires
        0 <= n <= scored.len(),
        forall|j: int|
            0 <= j < n && (#[trigger] scored[j]).survivor() is Some
                ==> !scored[j].survivor()->0.ranked_by().nan(),
    ensures
        match best_of(scored, n) {
            Some(b) => {
                &&& !b.ranked_by().nan()
                &&& forall|m: int|
                    0 <= m < n && (#[trigger] scored[m]).survivor() is Some
                        ==> scored[m].survivor()->0.ranked_by().at_most(b.ranked_by())
                &&& exists|j: int|
                    0 <= j < n && (#[trigger] scored[j]).survivor() == Some(b) && forall|m: int|
                        0 <= m < j && (#[trigger] scored[m]).survivor() is Some
                            ==> scored[m].survivor()->0.ranked_by().less(b.ranked_by())
            },
            None => forall|m: int| 0 <= m < n ==> (#[trigger] scored[m]).survivor() is None,
        },
    decreases n,
{
    if n > 0 {
        lemma_best_of(scored, n - 1);
        let prev = best_of(scored, n - 1);
        let s = scored[n - 1];
        match best_of(scored, n) {
            Some(b) => {
                if best_of(scored, n) == prev && !(s.survivor() == Some(b)) {
                    let j = choose|j: int|
                        0 <= j < n - 1 && (#[trigger] scored[j]).survivor() == Some(b) && forall|
                            m: int,
                        |
                            0 <= m < j && (#[trigger] scored[m]).survivor() is Some
                                ==> scored[m].survivor()->0.ranked_by().less(b.ranked_by());
                    assert(scored[j].survivor() == Some(b));
                } else if best_of(scored, n) == prev {
                    let j = choose|j: int|
                        0 <= j < n - 1 && (#[trigger] scored[j]).survivor() == Some(b) && forall|
                            m: int,
                        |
                            0 <= m < j && (#[trigger] scored[m]).survivor() is Some
                                ==> scored[m].survivor()->0.ranked_by().less(b.ranked_by());
                    assert(scored[j].survivor() == Some(b));
                } else {
                    assert(scored[n - 1].survivor() == Some(b));
                }
            },
            None => {},
        }
    }
}

/// What is to be done next.
pub enum Action {
    /// Ask whether to go on, and call [`Run::poll`].
    Poll,
    /// Recompute these frames of each block, store them with [`Mp::resolve`], and call
    /// [`Run::resolved`].
    Resolve(Vec<Vec<usize>>),
    /// Score each seed exactly, refine it and validate it, and call [`Run::scored`].
    Score(Vec<Seed>),
    /// Render this atom, subtract it, and call [`Run::subtracted`].
    Subtract(Candidate),
    /// Bound the frames the subtraction touched, with [`Mp::mark_stale`], and go on.
    Bound { tau: usize, atom_len: usize },
    /// Recompute every frame, with [`Mp::refresh_all`], and go on.
    Refresh,
    /// The pursuit is over.
    Done,
}

/// What subtracting an atom did: where its samples landed in the residual, and the residual's energy
/// before and after.
#[derive(Clone, Copy, Debug, PartialEq, Eq, Structural)]
pub struct Subtraction {
    pub tau: usize,
    pub atom_len: usize,
    pub before: Double,
    pub after: Double,
}

/// A pursuit in progress.
pub struct Run {
    pub selections: Vec<Selection>,
    /// Consecutive iterations in which every candidate was rejected.
    pub stalls: usize,
    /// The energy a seed must exceed this iteration.
    pub floor: Double,
}

/// What the search says of the tables: frames to recompute first, or the seeds if the strongest is
/// worth having.
pub open spec fn sought(mp: Mp, k: int, floor: Double, a: Action) -> bool {
    if exists|b: int| 0 <= b < mp.states@.len() && (#[trigger] mp.pending(b, k)).len() > 0 {
        a matches Action::Resolve(frames) && frames@.len() == mp.states@.len() && forall|b: int|
            0 <= b < mp.states@.len() ==> (#[trigger] frames@[b])@ == mp.pending(b, k)
    } else {
        let seeds = selection(mp.table_views(), k);
        if seeds.len() == 0 || seeds[0].energy.at_most(floor) {
            a is Done
        } else {
            a matches Action::Score(s) && s@ == seeds
        }
    }
}

/// The listed frames are set to zero and clean; every other frame is as it was.
pub open spec fn demoted(before: Mp, after: Mp, list: Seq<(usize, usize)>) -> bool {
    &&& after.same_shape(before)
    &&& after.marked == before.marked
    &&& after.resolved == before.resolved
    &&& after.per_block == before.per_block
    &&& forall|b: int|
        0 <= b < before.states@.len() ==> {
            &&& (#[trigger] after.states@[b]).bin@ == before.states@[b].bin@
            &&& after.states@[b].energy@.len() == before.states@[b].energy@.len()
            &&& after.states@[b].dirty@.len() == before.states@[b].dirty@.len()
        }
    &&& forall|b: int, n: int|
        0 <= b < before.states@.len() && 0 <= n < before.states@[b].energy@.len()
            ==> #[trigger] after.states@[b].energy@[n] == if list.contains((b as usize, n as usize)) {
            Double { bits: ZERO }
        } else {
            before.states@[b].energy@[n]
        }
    &&& forall|b: int, n: int|
        0 <= b < before.states@.len() && 0 <= n < before.states@[b].energy@.len()
            ==> #[trigger] after.states@[b].dirty@[n] == if list.contains((b as usize, n as usize)) {
            false
        } else {
            before.states@[b].dirty@[n]
        }
}

/// Set the listed frames to zero.
fn demote_all(mp: &mut Mp<'_>, list: &[(usize, usize)])
    requires
        old(mp).wf(),
        forall|i: int|
            0 <= i < list@.len() ==> (#[trigger] list@[i]).0 < old(mp).states@.len() && list@[i].1 < old(
                mp,
            ).frames_of(list@[i].0 as int),
    ensures
        final(mp).wf(),
        demoted(*old(mp), *final(mp), list@),
{
    let ghost start = *mp;
    let mut i: usize = 0;
    proof {
        assert(list@.take(0) =~= Seq::<(usize, usize)>::empty());
        assert forall|b: int| 0 <= b < start.states@.len() implies (#[trigger] start.states@[b]).wf(
            start.frames_of(b),
            start.dict.blocks@[b].env.samples@,
        ) by {}
    }
    while i < list.len()
        invariant
            i <= list@.len(),
            start == *old(mp),
            start.wf(),
            mp.wf(),
            forall|i: int|
                0 <= i < list@.len() ==> (#[trigger] list@[i]).0 < start.states@.len() && list@[i].1
                    < start.frames_of(list@[i].0 as int),
            demoted(start, *mp, list@.take(i as int)),
        decreases list@.len() - i,
    {
        let (b, frame) = list[i];
        let ghost prev = *mp;
        let ghost done = list@.take(i as int);
        let ghost next = list@.take(i + 1);
        proof {
            assert(list@[i as int] == (b, frame));
            assert(mp.frames_of(b as int) == start.frames_of(b as int));
        }
        mp.demote(b, frame, Double { bits: ZERO });
        proof {
            assert(mp.states.len() == mp.states@.len());
            assert forall|x: (usize, usize)| #[trigger] next.contains(x) <==> done.contains(x) || x
                == (b, frame) by {
                if next.contains(x) {
                    let j = choose|j: int| 0 <= j < next.len() && next[j] == x;
                    if j < i {
                        assert(done[j] == x);
                    }
                }
                if done.contains(x) {
                    let j = choose|j: int| 0 <= j < done.len() && done[j] == x;
                    assert(next[j] == x);
                }
                assert(next[i as int] == (b, frame));
            }
            assert forall|c: int, n: int|
                0 <= c < start.states@.len() && 0 <= n < start.states@[c].energy@.len() implies (
            #[trigger] mp.states@[c].energy@[n] == if next.contains((c as usize, n as usize)) {
                Double { bits: ZERO }
            } else {
                start.states@[c].energy@[n]
            }) by {
                assert(start.states@[c].energy.len() == start.states@[c].energy@.len());
                assert(prev.states@[c].energy@[n] == prev.states@[c].energy@[n]);
                assert(next.contains((c as usize, n as usize)) <==> done.contains(
                    (c as usize, n as usize),
                ) || (c as usize, n as usize) == (b, frame));
            }
            assert forall|c: int, n: int|
                0 <= c < start.states@.len() && 0 <= n < start.states@[c].energy@.len() implies (
            #[trigger] mp.states@[c].dirty@[n] == if next.contains((c as usize, n as usize)) {
                false
            } else {
                start.states@[c].dirty@[n]
            }) by {
                assert(start.states@[c].energy.len() == start.states@[c].energy@.len());
                assert(prev.states@[c].dirty@[n] == prev.states@[c].dirty@[n]);
                assert(prev.states@[c].dirty@.len() == prev.states@[c].energy@.len()) by {
                    assert(prev.states@[c].wf(
                        prev.frames_of(c),
                        prev.dict.blocks@[c].env.samples@,
                    ));
                }
                assert(next.contains((c as usize, n as usize)) <==> done.contains(
                    (c as usize, n as usize),
                ) || (c as usize, n as usize) == (b, frame));
            }
            assert forall|c: int| 0 <= c < start.states@.len() implies {
                &&& (#[trigger] mp.states@[c]).bin@ == start.states@[c].bin@
                &&& mp.states@[c].energy@.len() == start.states@[c].energy@.len()
                &&& mp.states@[c].dirty@.len() == start.states@[c].dirty@.len()
            } by {
                assert(prev.states@[c].bin@ == start.states@[c].bin@);
            }
            assert forall|c: int| 0 <= c < mp.states@.len() implies (#[trigger] mp.states@[c]).same_envelope(
                start.states@[c],
            ) by {
                assert(prev.states@[c].same_envelope(start.states@[c]));
                assert(mp.states@[c].same_envelope(prev.states@[c]));
            }
        }
        i += 1;
    }
    proof {
        assert(list@.take(list@.len() as int) =~= list@);
    }
}

impl Run {
    pub fn new() -> (r: Run)
        ensures
            r.selections@.len() == 0,
            r.stalls == 0,
    {
        Run { selections: Vec::new(), stalls: 0, floor: Double { bits: ZERO } }
    }

    /// Search the tables.
    fn seek(&self, mp: &Mp<'_>, cfg: &MpConfig) -> (r: Action)
        requires
            mp.wf(),
            cfg.candidate_count >= 1,
        ensures
            sought(*mp, cfg.candidate_count as int, self.floor, r),
    {
        match mp.top_candidates(cfg.candidate_count) {
            Candidates::Resolve(frames) => {
                proof {
                    let b = choose|b: int| 0 <= b < frames@.len() && (#[trigger] frames@[b])@.len() > 0;
                    assert(mp.pending(b, cfg.candidate_count as int).len() > 0);
                }
                Action::Resolve(frames)
            },
            Candidates::Ready(seeds) => {
                if seeds.len() == 0 || seeds[0].energy.le(self.floor) {
                    Action::Done
                } else {
                    Action::Score(seeds)
                }
            },
        }
    }

    /// The start of an iteration.
    ///
    /// `cancelled` is the host's stop request, `snr_db` the reconstruction SNR over the core now, and
    /// `core_energy` what is left there: a seed must exceed [`MpConfig::min_gain_fraction`] of it.
    pub fn poll<R: Reals>(
        &mut self,
        r: &R,
        mp: &Mp<'_>,
        cfg: &MpConfig,
        cancelled: bool,
        snr_db: Single,
        core_energy: Double,
    ) -> (answer: Action)
        requires
            r.repeatable(),
            mp.wf(),
            cfg.candidate_count >= 1,
        ensures
            final(self).selections == old(self).selections,
            final(self).stalls == old(self).stalls,
            if old(self).selections@.len() >= cfg.max_atoms || cancelled
                || cfg.target_snr_db.at_most(snr_db) {
                answer is Done
            } else {
                let floor = r.times_of(core_energy, cfg.min_gain_fraction);
                final(self).floor == floor && sought(
                    *mp,
                    cfg.candidate_count as int,
                    floor,
                    answer,
                )
            },
    {
        if self.selections.len() >= cfg.max_atoms || cancelled || cfg.target_snr_db.le(snr_db) {
            return Action::Done;
        }
        self.floor = r.times(core_energy, cfg.min_gain_fraction);
        self.seek(mp, cfg)
    }

    /// The frames asked for are exact now.
    pub fn resolved(&self, mp: &Mp<'_>, cfg: &MpConfig) -> (r: Action)
        requires
            mp.wf(),
            cfg.candidate_count >= 1,
        ensures
            sought(*mp, cfg.candidate_count as int, self.floor, r),
    {
        self.seek(mp, cfg)
    }

    /// Every seed has been scored: demote the rejected, and select the best of the rest.
    pub fn scored(&mut self, mp: &mut Mp<'_>, cfg: &MpConfig, scored: &[Scored]) -> (r: Action)
        requires
            old(mp).wf(),
            forall|i: int|
                0 <= i < scored@.len() ==> (#[trigger] scored@[i]).seed.block < old(mp).states@.len()
                    && scored@[i].seed.frame < old(mp).frames_of(scored@[i].seed.block as int),
        ensures
            final(mp).wf(),
            demoted(*old(mp), *final(mp), rejects(scored@, scored@.len() as int)),
            final(self).selections == old(self).selections,
            final(self).floor == old(self).floor,
            match best_of(scored@, scored@.len() as int) {
                Some(c) => {
                    &&& final(self).stalls == 0
                    &&& r == Action::Subtract(c)
                    &&& !c.ranked_by().at_most(Double { bits: ZERO })
                },
                None => if rejects(scored@, scored@.len() as int).len() == 0 {
                    r is Done && final(self).stalls == old(self).stalls
                } else {
                    &&& final(self).stalls == if old(self).stalls < usize::MAX {
                        old(self).stalls + 1
                    } else {
                        usize::MAX as int
                    }
                    &&& final(self).stalls >= cfg.max_stalls ==> r is Done
                    &&& final(self).stalls < cfg.max_stalls ==> r is Poll
                },
            },
    {
        let chosen = best_candidate(scored);
        proof {
            lemma_rejects(scored@, scored@.len() as int);
            lemma_best_survives(scored@, scored@.len() as int);
        }
        demote_all(mp, chosen.demote.as_slice());
        match chosen.best {
            Some(best) => {
                self.stalls = 0;
                Action::Subtract(best)
            },
            None => {
                if chosen.demote.len() == 0 {
                    return Action::Done;
                }
                self.stalls = self.stalls.saturating_add(1);
                if self.stalls >= cfg.max_stalls {
                    Action::Done
                } else {
                    Action::Poll
                }
            },
        }
    }

    /// The atom has been subtracted, or could not be rendered over any of the residual.
    ///
    /// The invalidated range is where the samples landed, never the seed's onset, which stops being
    /// the atom's the moment refinement can move it.
    pub fn subtracted<R: Reals>(
        &mut self,
        r: &R,
        cfg: &MpConfig,
        best: Candidate,
        outcome: Option<Subtraction>,
    ) -> (answer: Action)
        requires
            r.repeatable(),
        ensures
            final(self).stalls == old(self).stalls,
            final(self).floor == old(self).floor,
            match outcome {
                None => answer is Done && final(self).selections == old(self).selections,
                Some(s) => {
                    &&& final(self).selections@ == old(self).selections@.push(recorded(r, best, s))
                    &&& if s.before.at_most(s.after) {
                        answer is Done
                    } else if cfg.full_update {
                        answer is Refresh
                    } else {
                        answer == (Action::Bound { tau: s.tau, atom_len: s.atom_len })
                    }
                },
            },
    {
        let s = match outcome {
            Some(s) => s,
            None => {
                return Action::Done;
            },
        };
        self.selections.push(
            Selection {
                atom: best.atom,
                block: best.seed.block,
                onset: best.seed.onset,
                bin: best.seed.bin,
                projected_energy: best.mp_score,
                energy_removed: r.minus(s.before, s.after),
                residual_energy: s.after,
                hr_score: best.hr_score,
                refined: best.refined,
            },
        );
        if s.before.le(s.after) {
            // A rise is a parameter-mapping error, not noise.
            return Action::Done;
        }
        if cfg.full_update {
            Action::Refresh
        } else {
            Action::Bound { tau: s.tau, atom_len: s.atom_len }
        }
    }
}

/// What the book says of a subtracted candidate.
pub open spec fn recorded<R: Reals>(r: &R, best: Candidate, s: Subtraction) -> Selection {
    Selection {
        atom: best.atom,
        block: best.seed.block,
        onset: best.seed.onset,
        bin: best.seed.bin,
        projected_energy: best.mp_score,
        energy_removed: r.minus_of(s.before, s.after),
        residual_energy: s.after,
        hr_score: best.hr_score,
        refined: best.refined,
    }
}

/// What the book says of a candidate is the candidate's own atom and place, what the residual has left,
/// and the difference its subtraction made to that, to within the machine's error.
pub proof fn law_a_selection_says_what_it_removed<R: Reals>(
    r: &R,
    best: Candidate,
    s: Subtraction,
    limit: real,
    err: real,
)
    requires
        steady(r, limit, err),
        s.before.finite() && s.after.finite(),
        size(s.before.value() - s.after.value()) <= limit,
    ensures
        ({
            let got = recorded(r, best, s);
            &&& got.atom == best.atom
            &&& (got.block, got.onset, got.bin) == (best.seed.block, best.seed.onset, best.seed.bin)
            &&& got.residual_energy == s.after
            &&& near(got.energy_removed, s.before.value() - s.after.value(), err)
            &&& (got.projected_energy, got.hr_score) == (best.mp_score, best.hr_score)
            &&& got.refined == best.refined
        }),
{
}

proof fn lemma_rejects(scored: Seq<Scored>, n: int)
    requires
        0 <= n <= scored.len(),
    ensures
        forall|i: int|
            0 <= i < rejects(scored, n).len() ==> exists|j: int|
                0 <= j < n && #[trigger] rejects(scored, n)[i] == (
                    (#[trigger] scored[j]).seed.block,
                    scored[j].seed.frame,
                ),
    decreases n,
{
    if n > 0 {
        lemma_rejects(scored, n - 1);
        let r = rejects(scored, n);
        let q = rejects(scored, n - 1);
        assert forall|i: int| 0 <= i < r.len() implies exists|j: int|
            0 <= j < n && #[trigger] r[i] == (
                (#[trigger] scored[j]).seed.block,
                scored[j].seed.frame,
            ) by {
            if i < q.len() {
                assert(q[i] == r[i]);
                let j = choose|j: int|
                    0 <= j < n - 1 && q[i] == (
                        (#[trigger] scored[j]).seed.block,
                        scored[j].seed.frame,
                    );
                assert(r[i] == (scored[j].seed.block, scored[j].seed.frame));
            } else {
                assert(r[i] == (scored[n - 1].seed.block, scored[n - 1].seed.frame));
            }
        }
    }
}

proof fn lemma_best_survives(scored: Seq<Scored>, n: int)
    requires
        0 <= n <= scored.len(),
    ensures
        best_of(scored, n) matches Some(c) ==> !c.ranked_by().at_most(Double { bits: ZERO }),
    decreases n,
{
    if n > 0 {
        lemma_best_survives(scored, n - 1);
    }
}

} // verus!
