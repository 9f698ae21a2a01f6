//! The pursuit, run from start to finish.
//!
//! Each turn searches the frame tables, scores the strongest seeds exactly, refines and validates
//! them, and takes the best out of the residual. What a turn decides is in [`Run`]; this module
//! carries it out.

use crate::arith::{Gram, Params, Rendered, Scorer};
use crate::atom::{energy, energy_of, AtomParams, Shape};
use crate::cache::{CacheState, EnvelopeCache};
use crate::cand::{selection, Candidate, Seed};
use crate::corr::{best_bin_of, is_best_bin, window, windowed, Projection};
use crate::dict::{frames, law_frames_cover_the_signal, real_transform, transformed, Bin, Block, Dictionary};
use crate::ieee::{Double, Single};
use crate::mp::{
    ascending, counted, holds_scan, lemma_pending, lemma_seeds_in_tables, rewritten, total_len,
    total_stale, Mp,
};
use crate::pursuit::{
    best_of, demoted, recorded, rejects, score_seed, seed_scored, sought, Action, MpConfig, Run,
    Scored, Selection, Subtraction, Verdict,
};
use crate::reals::Reals;
use crate::refresh::{every_frame, frame_scanned, numbered, refresh_residual, scannable};
use crate::subtract::{
    energies_after, law_the_overlap_is_what_is_shared, left_at, overlap, overlap_of, subtract,
    Energies, Overlap,
};
use vstd::prelude::*;

verus! {

/// What a pursuit asks of a machine.
pub struct Kit<R, E, G, M, U, T, J, S, N, C> {
    /// Its arithmetic, and the rendering and scoring of envelopes.
    pub scorer: Scorer<R, E, G, M, U>,
    /// A real transform.
    pub transform: T,
    /// Validate a candidate's local support on a residual, or `None` where it cannot be.
    pub judge: J,
    /// Render an atom, or `None` for one that cannot be.
    pub synth: S,
    /// How far a residual's energy is below an initial one, dB.
    pub snr: N,
    /// The host's stop request.
    pub cancel: C,
}

/// Where a pursuit stands.
pub struct Stand<'a> {
    pub tables: Mp<'a>,
    pub residual: Seq<Single>,
    pub energies: Energies,
    pub cache: CacheState,
    pub selections: Seq<Selection>,
    pub stalls: int,
}

/// A residual with an atom taken out where they overlap.
pub open spec fn without<R: Reals>(r: &R, residual: Seq<Single>, atom: Seq<Single>, o: Overlap) -> Seq<
    Single,
> {
    Seq::new(
        residual.len(),
        |t: int|
            if o.tau <= t < o.tau + o.len {
                left_at(r, residual, atom, o, t - o.tau)
            } else {
                residual[t]
            },
    )
}

/// The flags set among the first `n`.
pub open spec fn flags(dirty: Seq<bool>, n: int) -> int
    decreases n,
{
    if n <= 0 {
        0
    } else {
        flags(dirty, n - 1) + if dirty[n - 1] {
            1int
        } else {
            0
        }
    }
}

/// The dirty frames of a block.
pub open spec fn dirty_in(mp: Mp, b: int) -> int {
    flags(mp.states@[b].dirty@, mp.states@[b].dirty@.len() as int)
}

/// The dirty frames of the first `n` blocks.
pub open spec fn dirty_total(mp: Mp, n: int) -> int
    decreases n,
{
    if n <= 0 {
        0
    } else {
        dirty_total(mp, n - 1) + dirty_in(mp, n - 1)
    }
}

/// The frames pending over the first `n` blocks.
pub open spec fn pending_total(mp: Mp, k: int, n: int) -> int
    decreases n,
{
    if n <= 0 {
        0
    } else {
        pending_total(mp, k, n - 1) + mp.pending(n - 1, k).len()
    }
}

proof fn lemma_pending_total(mp: Mp, lists: Seq<Vec<usize>>, k: int, n: int)
    requires
        0 <= n <= lists.len(),
        forall|b: int| 0 <= b < lists.len() ==> (#[trigger] lists[b])@ == mp.pending(b, k),
    ensures
        total_len(lists, n) == pending_total(mp, k, n),
    decreases n,
{
    if n > 0 {
        lemma_pending_total(mp, lists, k, n - 1);
        assert(lists[n - 1]@ == mp.pending(n - 1, k));
    }
}

/// A selection starts inside its residual, on the grid and off it.
pub open spec fn inside(s: Selection, len: int) -> bool {
    s.atom.t0 < len && s.onset < len
}

/// What is selected is one of the candidates scored.
pub proof fn lemma_best_was_scored(scored: Seq<Scored>, n: int)
    requires
        0 <= n <= scored.len(),
    ensures
        best_of(scored, n) matches Some(c) ==> exists|j: int|
            0 <= j < n && (#[trigger] scored[j]).outcome == Some(c),
    decreases n,
{
    if n > 0 {
        lemma_best_was_scored(scored, n - 1);
        if let Some(c) = best_of(scored, n) {
            if best_of(scored, n - 1) == Some(c) {
                let j = choose|j: int| 0 <= j < n - 1 && (#[trigger] scored[j]).outcome == Some(c);
                assert(scored[j].outcome == Some(c));
            } else {
                assert(scored[n - 1].outcome == Some(c));
            }
        }
    }
}

proof fn lemma_flags(before: Seq<bool>, after: Seq<bool>, n: int)
    requires
        0 <= n <= before.len(),
        before.len() == after.len(),
        forall|i: int| 0 <= i < n && #[trigger] after[i] ==> before[i],
    ensures
        0 <= flags(after, n) <= flags(before, n),
        (exists|i: int| 0 <= i < n && #[trigger] before[i] && !after[i]) ==> flags(after, n) < flags(
            before,
            n,
        ),
    decreases n,
{
    if n > 0 {
        lemma_flags(before, after, n - 1);
        if exists|i: int| 0 <= i < n && #[trigger] before[i] && !after[i] {
            let i = choose|i: int| 0 <= i < n && #[trigger] before[i] && !after[i];
            if i < n - 1 {
                assert(before[i] && !after[i]);
            }
        }
    }
}

proof fn lemma_dirty_total(before: Mp, after: Mp, n: int)
    requires
        0 <= n <= before.states@.len(),
        before.states@.len() == after.states@.len(),
        forall|b: int|
            0 <= b < before.states@.len() ==> {
                &&& (#[trigger] after.states@[b]).dirty@.len() == before.states@[b].dirty@.len()
                &&& forall|i: int|
                    0 <= i < before.states@[b].dirty@.len() && #[trigger] after.states@[b].dirty@[i]
                        ==> before.states@[b].dirty@[i]
            },
    ensures
        0 <= dirty_total(after, n) <= dirty_total(before, n),
        (exists|b: int, i: int|
            0 <= b < n && 0 <= i < before.states@[b].dirty@.len()
                && #[trigger] before.states@[b].dirty@[i] && !after.states@[b].dirty@[i])
            ==> dirty_total(after, n) < dirty_total(before, n),
    decreases n,
{
    if n > 0 {
        lemma_dirty_total(before, after, n - 1);
        let (x, y) = (before.states@[n - 1].dirty@, after.states@[n - 1].dirty@);
        lemma_flags(x, y, x.len() as int);
        if exists|b: int, i: int|
            0 <= b < n && 0 <= i < before.states@[b].dirty@.len()
                && #[trigger] before.states@[b].dirty@[i] && !after.states@[b].dirty@[i] {
            let (b, i) = choose|b: int, i: int|
                0 <= b < n && 0 <= i < before.states@[b].dirty@.len()
                    && #[trigger] before.states@[b].dirty@[i] && !after.states@[b].dirty@[i];
            if b < n - 1 {
                assert(before.states@[b].dirty@[i] && !after.states@[b].dirty@[i]);
            } else {
                assert(x[i] && !y[i]);
            }
        }
    }
}

/// A dictionary can be correlated with a signal of `len` samples.
pub open spec fn pursuable(dict: &Dictionary, len: int) -> bool {
    &&& len <= i64::MAX
    &&& forall|b: int|
        0 <= b < dict.blocks@.len() ==> {
            &&& scannable(#[trigger] dict.blocks@[b])
            &&& dict.blocks@[b].support() >= 1
        }
}

/// A pursuit's tables can be scanned over.
pub open spec fn workable(mp: Mp) -> bool {
    &&& mp.wf()
    &&& pursuable(mp.dict, mp.len as int)
}

impl<R, E, G, M, U, T, J, S, N, C> Kit<R, E, G, M, U, T, J, S, N, C> where
    R: Reals + Sync,
    E: Fn(Shape) -> Option<Rendered> + Sync,
    G: Fn(&[Single], Params, &Rendered, Option<Gram>) -> Double + Sync,
    M: Fn(&Rendered, Single) -> Gram + Sync,
    U: Fn(&[Single], Params, &Rendered) -> Option<Projection> + Sync,
    T: Fn(Vec<Single>) -> Vec<Bin> + Sync,
    J: Fn(&[Single], Candidate) -> Option<Verdict>,
    S: Fn(AtomParams) -> Option<Vec<Single>>,
    N: Fn(Double, Double) -> Single,
    C: Fn() -> bool,
{
    /// Everything asked of the machine is defined everywhere, and its arithmetic and scoring repeat
    /// themselves.
    pub open spec fn ready(&self) -> bool {
        &&& self.scorer.repeatable()
        &&& real_transform(self.transform)
        &&& forall|residual: &[Single], c: Candidate| #[trigger]
            call_requires(self.judge, (residual, c))
        &&& forall|a: AtomParams| #[trigger] call_requires(self.synth, (a,))
        &&& forall|a: Double, b: Double| #[trigger] call_requires(self.snr, (a, b))
        &&& call_requires(self.cancel, ())
    }

    /// A pending frame holds what scanning it gives, and any other what it held.
    pub open spec fn frame_resolved(
        &self,
        before: Mp,
        after: Mp,
        residual: Seq<Single>,
        k: int,
        b: int,
        n: int,
    ) -> bool {
        let (x, y) = (before.states@[b], after.states@[b]);
        if before.pending(b, k).contains(n as usize) {
            &&& !y.dirty@[n]
            &&& frame_scanned(
                &self.scorer.reals,
                before.dict.blocks@[b],
                residual,
                &self.transform,
                n as usize,
                (y.bin@[n], y.energy@[n]),
            )
        } else {
            y.energy@[n] == x.energy@[n] && y.bin@[n] == x.bin@[n] && y.dirty@[n] == x.dirty@[n]
        }
    }

    /// The frames pending, of which there are some, have been recomputed and counted.
    pub open spec fn resolved_once(
        &self,
        before: Mp,
        after: Mp,
        residual: Seq<Single>,
        k: int,
    ) -> bool {
        let n = before.states@.len() as int;
        &&& exists|b: int| 0 <= b < n && (#[trigger] before.pending(b, k)).len() > 0
        &&& after.wf()
        &&& after.same_shape(before)
        &&& after.marked == before.marked
        &&& after.resolved == counted(before.resolved + pending_total(before, k, n))
        &&& forall|b: int|
            0 <= b < n ==> #[trigger] after.per_block@[b] == (
                before.per_block@[b].0,
                counted(before.per_block@[b].1 + before.pending(b, k).len()) as usize,
            )
        &&& forall|b: int, m: int|
            0 <= b < n && 0 <= m < before.frames_of(b) ==> #[trigger] self.frame_resolved(
                before,
                after,
                residual,
                k,
                b,
                m,
            )
    }

    /// Pass after pass over the frames pending, until none is.
    pub open spec fn settled(&self, passes: Seq<Mp>, residual: Seq<Single>, k: int) -> bool {
        &&& passes.len() >= 1
        &&& forall|i: int|
            #![trigger passes[i]]
            0 <= i < passes.len() - 1 ==> self.resolved_once(passes[i], passes[i + 1], residual, k)
        &&& forall|b: int|
            0 <= b < passes.last().states@.len() ==> (#[trigger] passes.last().pending(b, k)).len()
                == 0
    }

    /// Every frame holds what scanning it gives.
    pub open spec fn all_exact(&self, mp: Mp, residual: Seq<Single>) -> bool {
        forall|b: int, n: int|
            0 <= b < mp.states@.len() && 0 <= n < mp.frames_of(b) ==> !(
            #[trigger] mp.states@[b].dirty@[n]) && frame_scanned(
                &self.scorer.reals,
                mp.dict.blocks@[b],
                residual,
                &self.transform,
                n as usize,
                (mp.states@[b].bin@[n], mp.states@[b].energy@[n]),
            )
    }

    /// One seed's frame has been transformed, and its best bin scored.
    pub open spec fn seed_found(
        &self,
        cfg: MpConfig,
        block: Block,
        residual: Seq<Single>,
        seed: Seed,
        cache: CacheState,
        left: CacheState,
        answer: Scored,
    ) -> bool {
        exists|view: &[Single], spectrum: Seq<Bin>, found: (usize, Projection)|
            {
                &&& view@ == residual
                &&& #[trigger] transformed(
                    self.transform,
                    windowed(
                        &self.scorer.reals,
                        residual,
                        block.env.samples@,
                        seed.onset as int,
                        block.fft_len as int,
                    ),
                    spectrum,
                )
                &&& #[trigger] is_best_bin(&self.scorer.reals, block, spectrum, found)
                &&& #[trigger] seed_scored(
                    &self.scorer.reals,
                    block,
                    view,
                    seed,
                    found,
                    cfg,
                    &self.scorer.search_of(view, block, block.env.params, cfg.refine),
                    &self.judge,
                    cache,
                    left,
                    answer,
                )
            }
    }

    /// Every seed has been scored, each with the cache the one before it left.
    pub open spec fn all_scored(
        &self,
        cfg: MpConfig,
        mp: Mp,
        residual: Seq<Single>,
        seeds: Seq<Seed>,
        scored: Seq<Scored>,
        caches: Seq<CacheState>,
    ) -> bool {
        &&& scored.len() == seeds.len()
        &&& caches.len() == seeds.len() + 1
        &&& forall|i: int|
            0 <= i < seeds.len() ==> self.seed_found(
                cfg,
                mp.dict.blocks@[seeds[i].block as int],
                residual,
                seeds[i],
                caches[i],
                caches[i + 1],
                #[trigger] scored[i],
            )
    }

    /// Every frame an atom's landed samples touch is bounded and counted.
    pub open spec fn brought_up(&self, s: Mp, next: Mp, o: Overlap, landed: Seq<Single>) -> bool {
        let n = s.states@.len() as int;
        let (tau, len) = (o.tau as int, o.len as int);
        &&& next.marked == counted(s.marked + total_stale(s, tau, len, n))
        &&& forall|b: int|
            0 <= b < n ==> s.bounded(
                b,
                #[trigger] next.states@[b],
                tau,
                len,
                s.bounds_for(&self.scorer.reals, b, tau, landed),
            )
        &&& forall|b: int|
            0 <= b < n ==> #[trigger] next.per_block@[b] == (
                counted(s.per_block@[b].0 + s.stale_frames(b, tau, len)) as usize,
                s.per_block@[b].1,
            )
    }

    /// A selected candidate's rendered atom has been taken out of the residual.
    pub open spec fn taken(
        &self,
        cfg: MpConfig,
        s: Stand,
        best: Candidate,
        atom: Seq<Single>,
        next: Stand,
        stop: bool,
    ) -> bool {
        let r = &self.scorer.reals;
        match overlap_of(s.residual.len() as int, atom.len() as int, best.atom.t0 as int) {
            None => stop && next == s,
            Some(o) => {
                let e = energies_after(
                    r,
                    s.residual,
                    atom,
                    o,
                    s.tables.core_len as int,
                    s.energies,
                    o.len as int,
                );
                let done = Subtraction {
                    tau: o.tau,
                    atom_len: o.len,
                    before: s.energies.whole,
                    after: e.whole,
                };
                let landed = atom.subrange(o.skip as int, o.skip + o.len);
                &&& next.residual == without(r, s.residual, atom, o)
                &&& next.energies == e
                &&& next.cache == s.cache
                &&& next.selections == s.selections.push(recorded(r, best, done))
                &&& next.stalls == s.stalls
                &&& if done.before.at_most(done.after) {
                    stop && next.tables == s.tables
                } else {
                    &&& !stop
                    &&& next.tables.wf()
                    &&& next.tables.same_shape(s.tables)
                    &&& next.tables.resolved == s.tables.resolved
                    &&& if cfg.full_update {
                        &&& self.all_exact(next.tables, next.residual)
                        &&& next.tables.marked == s.tables.marked
                        &&& next.tables.per_block == s.tables.per_block
                    } else {
                        self.brought_up(s.tables, next.tables, o, landed)
                    }
                }
            },
        }
    }

    /// The rejected have been demoted, and the best of the rest, if any, taken out.
    pub open spec fn decided(
        &self,
        cfg: MpConfig,
        s: Stand,
        scored: Seq<Scored>,
        next: Stand,
        stop: bool,
    ) -> bool {
        let n = scored.len() as int;
        exists|u: Mp|
            {
                &&& #[trigger] demoted(s.tables, u, rejects(scored, n))
                &&& u.wf()
                &&& match best_of(scored, n) {
                    Some(c) => exists|drawn: Option<Vec<Single>>|
                        {
                            let t = Stand { tables: u, stalls: 0, ..s };
                            &&& #[trigger] call_ensures(self.synth, (c.atom,), drawn)
                            &&& match drawn {
                                Some(atom) => self.taken(cfg, t, c, atom@, next, stop),
                                None => stop && next == t,
                            }
                        },
                    None => if rejects(scored, n).len() == 0 {
                        stop && next == (Stand { tables: u, ..s })
                    } else {
                        &&& next == (Stand { tables: u, stalls: s.stalls + 1, ..s })
                        &&& stop == (s.stalls + 1 >= cfg.max_stalls)
                    },
                }
            }
    }

    /// The tables are settled: the strongest seeds are scored if the first is worth having.
    pub open spec fn searched(&self, cfg: MpConfig, s: Stand, next: Stand, stop: bool) -> bool {
        let k = cfg.candidate_count as int;
        let seeds = selection(s.tables.table_views(), k);
        let floor = self.scorer.reals.times_of(s.energies.core, cfg.min_gain_fraction);
        if seeds.len() == 0 || seeds[0].energy.at_most(floor) {
            stop && next == s
        } else {
            exists|scored: Seq<Scored>, caches: Seq<CacheState>|
                {
                    &&& #[trigger] self.all_scored(cfg, s.tables, s.residual, seeds, scored, caches)
                    &&& caches[0] == s.cache
                    &&& self.decided(cfg, Stand { cache: caches.last(), ..s }, scored, next, stop)
                }
        }
    }

    /// The pursuit is over before the tables are searched: it has its atoms, the host says stop, or
    /// the target is reached.
    pub open spec fn over(&self, cfg: MpConfig, initial: Double, s: Stand) -> bool {
        ||| s.selections.len() >= cfg.max_atoms
        ||| call_ensures(self.cancel, (), true)
        ||| exists|snr: Single| #[trigger]
            call_ensures(self.snr, (initial, s.energies.core), snr) && cfg.target_snr_db.at_most(snr)
    }

    /// None of that holds.
    pub open spec fn goes_on(&self, cfg: MpConfig, initial: Double, s: Stand) -> bool {
        &&& s.selections.len() < cfg.max_atoms
        &&& call_ensures(self.cancel, (), false)
        &&& exists|snr: Single| #[trigger]
            call_ensures(self.snr, (initial, s.energies.core), snr) && !cfg.target_snr_db.at_most(snr)
    }

    /// One turn of a pursuit that started from a core of `initial` energy.
    pub open spec fn turn(
        &self,
        cfg: MpConfig,
        initial: Double,
        s: Stand,
        next: Stand,
        stop: bool,
    ) -> bool {
        ||| self.over(cfg, initial, s) && stop && next == s
        ||| self.goes_on(cfg, initial, s) && exists|passes: Seq<Mp>|
            {
                &&& #[trigger] self.settled(passes, s.residual, cfg.candidate_count as int)
                &&& passes[0] == s.tables
                &&& self.searched(cfg, Stand { tables: passes.last(), ..s }, next, stop)
            }
    }

    /// A pursuit from start to finish: turn after turn, the last of which stops it.
    pub open spec fn is_run(&self, cfg: MpConfig, initial: Double, trace: Seq<Stand>) -> bool {
        &&& trace.len() >= 2
        &&& forall|i: int|
            #![trigger trace[i]]
            0 <= i < trace.len() - 1 ==> self.turn(
                cfg,
                initial,
                trace[i],
                trace[i + 1],
                i == trace.len() - 2,
            )
    }

    /// Recompute frames until the seeds can be trusted.
    fn settle(
        &self,
        run: &Run,
        mp: &mut Mp<'_>,
        cfg: &MpConfig,
        residual: &[Single],
        first: Action,
    ) -> (answer: Action)
        requires
            self.ready(),
            workable(*old(mp)),
            cfg.candidate_count >= 1,
            sought(*old(mp), cfg.candidate_count as int, run.floor, first),
        ensures
            workable(*final(mp)),
            final(mp).same_shape(*old(mp)),
            exists|passes: Seq<Mp>|
                {
                    &&& #[trigger] self.settled(passes, residual@, cfg.candidate_count as int)
                    &&& passes[0] == *old(mp)
                    &&& passes.last() == *final(mp)
                },
            ({
                let seeds = selection(final(mp).table_views(), cfg.candidate_count as int);
                if seeds.len() == 0 || seeds[0].energy.at_most(run.floor) {
                    answer is Done
                } else {
                    answer matches Action::Score(s) && s@ == seeds
                }
            }),
    {
        let ghost start = *mp;
        let ghost k = cfg.candidate_count as int;
        let ghost mut passes = seq![start];
        let mut action = first;
        loop
            invariant
                self.ready(),
                workable(*mp),
                cfg.candidate_count >= 1,
                k == cfg.candidate_count,
                start == *old(mp),
                mp.same_shape(start),
                passes.len() >= 1,
                passes[0] == start,
                passes.last() == *mp,
                forall|i: int|
                    #![trigger passes[i]]
                    0 <= i < passes.len() - 1 ==> self.resolved_once(
                        passes[i],
                        passes[i + 1],
                        residual@,
                        k,
                    ),
                sought(*mp, k, run.floor, action),
            decreases dirty_total(*mp, mp.states@.len() as int),
        {
            match action {
                Action::Resolve(frames) => {
                    let ghost before = *mp;
                    proof {
                        self.lemma_lists(before, frames@, k);
                    }
                    let exact = refresh_residual(
                        &self.scorer.reals,
                        mp.dict.blocks.as_slice(),
                        residual,
                        frames.as_slice(),
                        &self.transform,
                    );
                    mp.resolve(frames.as_slice(), exact.as_slice());
                    proof {
                        self.lemma_resolved(before, *mp, residual@, frames@, exact@, k);
                        let grown = passes.push(*mp);
                        assert forall|i: int| #![trigger grown[i]] 0 <= i < grown.len() - 1 implies
                            self.resolved_once(grown[i], grown[i + 1], residual@, k) by {
                            if i < passes.len() - 1 {
                                assert(grown[i] == passes[i] && grown[i + 1] == passes[i + 1]);
                            }
                        }
                        passes = grown;
                    }
                    action = run.resolved(mp, cfg);
                },
                other => {
                    assert(self.settled(passes, residual@, k));
                    return other;
                },
            }
        }
    }

    /// What the search asks to have recomputed can be.
    proof fn lemma_lists(&self, mp: Mp, lists: Seq<Vec<usize>>, k: int)
        requires
            workable(mp),
            lists.len() == mp.states@.len(),
            forall|b: int| 0 <= b < mp.states@.len() ==> (#[trigger] lists[b])@ == mp.pending(b, k),
        ensures
            forall|b: int, i: int|
                0 <= b < mp.dict.blocks@.len() && 0 <= i < lists[b]@.len() ==> #[trigger] lists[b]@[i]
                    * mp.dict.blocks@[b].hop <= usize::MAX,
            forall|b: int|
                0 <= b < lists.len() ==> {
                    &&& ascending((#[trigger] lists[b])@)
                    &&& forall|j: int|
                        0 <= j < lists[b]@.len() ==> #[trigger] lists[b]@[j] < mp.frames_of(b)
                },
    {
        assert forall|b: int| 0 <= b < lists.len() implies {
            &&& ascending((#[trigger] lists[b])@)
            &&& lists[b]@.len() <= frames(mp.dict.blocks@[b].hop as int, mp.len as int)
            &&& forall|j: int| 0 <= j < lists[b]@.len() ==> #[trigger] lists[b]@[j] < mp.frames_of(b)
        } by {
            lemma_pending(mp, b, k);
            assert(lists[b]@ == mp.pending(b, k));
        }
        assert forall|b: int, i: int|
            0 <= b < mp.dict.blocks@.len() && 0 <= i < lists[b]@.len() implies #[trigger] lists[b]@[i]
            * mp.dict.blocks@[b].hop <= usize::MAX by {
            assert(lists[b]@[i] < mp.frames_of(b));
            assert(mp.dict.blocks@[b].wf());
            lemma_frame_inside(mp.dict.blocks@[b], mp.len as int, lists[b]@[i] as int);
        }
    }

    /// Recomputing what the search asks for leaves fewer frames dirty.
    proof fn lemma_resolved(
        &self,
        before: Mp,
        after: Mp,
        residual: Seq<Single>,
        lists: Seq<Vec<usize>>,
        exact: Seq<Vec<(u32, Double)>>,
        k: int,
    )
        requires
            workable(before),
            after.wf(),
            after.same_shape(before),
            lists.len() == before.states@.len(),
            exact.len() == lists.len(),
            after.marked == before.marked,
            after.resolved == counted(before.resolved + total_len(lists, lists.len() as int)),
            forall|b: int|
                0 <= b < lists.len() ==> #[trigger] after.per_block@[b] == (
                    before.per_block@[b].0,
                    counted(before.per_block@[b].1 + lists[b]@.len()) as usize,
                ),
            forall|b: int| 0 <= b < lists.len() ==> (#[trigger] lists[b])@ == before.pending(b, k),
            exists|b: int| 0 <= b < before.states@.len() && (#[trigger] before.pending(b, k)).len() > 0,
            forall|b: int|
                0 <= b < lists.len() ==> {
                    &&& exact[b]@.len() == lists[b]@.len()
                    &&& rewritten(
                        before.states@[b],
                        #[trigger] after.states@[b],
                        lists[b]@,
                        exact[b]@,
                    )
                },
            forall|b: int, i: int|
                0 <= b < exact.len() && 0 <= i < exact[b]@.len() ==> frame_scanned(
                    &self.scorer.reals,
                    before.dict.blocks@[b],
                    residual,
                    &self.transform,
                    lists[b]@[i],
                    #[trigger] exact[b]@[i],
                ),
        ensures
            workable(after),
            self.resolved_once(before, after, residual, k),
            0 <= dirty_total(after, after.states@.len() as int) < dirty_total(
                before,
                before.states@.len() as int,
            ),
    {
        lemma_pending_total(before, lists, k, lists.len() as int);
        assert forall|b: int, m: int|
            0 <= b < before.states@.len() && 0 <= m < before.frames_of(b) implies #[trigger] self.frame_resolved(
            before,
            after,
            residual,
            k,
            b,
            m,
        ) by {
            assert(rewritten(before.states@[b], after.states@[b], lists[b]@, exact[b]@));
            assert(before.states@[b].wf(
                before.frames_of(b),
                before.dict.blocks@[b].env.samples@,
            ));
            assert(before.states@[b].energy.len() == before.states@[b].energy@.len());
            let list = lists[b]@;
            assert(list == before.pending(b, k));
            if list.contains(m as usize) {
                let j = choose|j: int| 0 <= j < list.len() && list[j] == m as usize;
                assert(!after.states@[b].dirty@[list[j] as int]);
                assert(frame_scanned(
                    &self.scorer.reals,
                    before.dict.blocks@[b],
                    residual,
                    &self.transform,
                    lists[b]@[j],
                    exact[b]@[j],
                ));
            }
        }
        assert forall|b: int| 0 <= b < before.states@.len() implies #[trigger] after.per_block@[b] == (
            before.per_block@[b].0,
            counted(before.per_block@[b].1 + before.pending(b, k).len()) as usize,
        ) by {
            assert(lists[b]@ == before.pending(b, k));
        }
        assert forall|b: int| 0 <= b < before.states@.len() implies {
            &&& (#[trigger] after.states@[b]).dirty@.len() == before.states@[b].dirty@.len()
            &&& forall|i: int|
                0 <= i < before.states@[b].dirty@.len() && #[trigger] after.states@[b].dirty@[i]
                    ==> before.states@[b].dirty@[i]
        } by {
            assert(rewritten(before.states@[b], after.states@[b], lists[b]@, exact[b]@));
            assert(before.states@[b].wf(
                before.frames_of(b),
                before.dict.blocks@[b].env.samples@,
            ));
            assert forall|i: int|
                0 <= i < before.states@[b].dirty@.len() && #[trigger] after.states@[b].dirty@[i] implies before.states@[b].dirty@[i] by {
                assert(self.frame_resolved(before, after, residual, k, b, i));
            }
        }
        let b = choose|b: int|
            0 <= b < before.states@.len() && (#[trigger] before.pending(b, k)).len() > 0;
        lemma_pending(before, b, k);
        assert(lists[b]@ == before.pending(b, k));
        assert(rewritten(before.states@[b], after.states@[b], lists[b]@, exact[b]@));
        assert(before.states@[b].wf(before.frames_of(b), before.dict.blocks@[b].env.samples@));
        let n = lists[b]@[0] as int;
        assert(before.pending(b, k)[0] < before.frames_of(b));
        assert(before.states@[b].dirty@[n] && !after.states@[b].dirty@[n]);
        lemma_dirty_total(before, after, before.states@.len() as int);
    }

    /// Score every seed.
    fn score_seeds(
        &self,
        mp: &Mp<'_>,
        cfg: &MpConfig,
        residual: &[Single],
        seeds: &[Seed],
        cache: &mut EnvelopeCache,
    ) -> (answer: (Vec<Scored>, Ghost<Seq<CacheState>>))
        requires
            self.ready(),
            workable(*mp),
            old(cache).wf(),
            forall|i: int|
                0 <= i < seeds@.len() ==> {
                    &&& (#[trigger] seeds@[i]).block < mp.states@.len()
                    &&& seeds@[i].onset < mp.len
                },
        ensures
            final(cache).wf(),
            self.all_scored(*cfg, *mp, residual@, seeds@, answer.0@, answer.1@),
            answer.1@[0] == old(cache)@,
            answer.1@.last() == final(cache)@,
            forall|i: int|
                0 <= i < seeds@.len() ==> {
                    &&& (#[trigger] answer.0@[i]).seed == seeds@[i]
                    &&& answer.0@[i].outcome matches Some(c) ==> c.seed.onset == seeds@[i].onset
                },
    {
        let ghost mut caches = seq![cache@];
        let mut out: Vec<Scored> = Vec::new();
        let mut i: usize = 0;
        while i < seeds.len()
            invariant
                self.ready(),
                workable(*mp),
                cache.wf(),
                i <= seeds@.len(),
                forall|i: int|
                    0 <= i < seeds@.len() ==> {
                        &&& (#[trigger] seeds@[i]).block < mp.states@.len()
                        &&& seeds@[i].onset < mp.len
                    },
                out@.len() == i,
                caches.len() == i + 1,
                caches[0] == old(cache)@,
                caches.last() == cache@,
                forall|j: int|
                    0 <= j < i ==> self.seed_found(
                        *cfg,
                        mp.dict.blocks@[seeds@[j].block as int],
                        residual@,
                        seeds@[j],
                        caches[j],
                        caches[j + 1],
                        #[trigger] out@[j],
                    ),
                forall|j: int|
                    0 <= j < i ==> {
                        &&& (#[trigger] out@[j]).seed == seeds@[j]
                        &&& out@[j].outcome matches Some(c) ==> c.seed.onset == seeds@[j].onset
                    },
            decreases seeds@.len() - i,
        {
            let seed = seeds[i];
            assert(seeds@[i as int].block < mp.states@.len());
            let block = &mp.dict.blocks[seed.block];
            assert(scannable(mp.dict.blocks@[seed.block as int]));
            let r = &self.scorer.reals;
            let input = window(
                r,
                residual,
                block.env.samples.as_slice(),
                seed.onset,
                block.fft_len,
            );
            let spectrum = (self.transform)(input);
            let found = best_bin_of(r, block, spectrum.as_slice());
            let search = self.scorer.search(residual, block, block.env.params, &cfg.refine);
            let ghost before = cache@;
            let one = score_seed(r, block, residual, seed, found, cfg, &search, &self.judge, cache);
            proof {
                assert(transformed(
                    self.transform,
                    windowed(
                        r,
                        residual@,
                        block.env.samples@,
                        seed.onset as int,
                        block.fft_len as int,
                    ),
                    spectrum@,
                ));
                assert(is_best_bin(r, *block, spectrum@, found));
                assert(seed_scored(
                    r,
                    *block,
                    residual,
                    seed,
                    found,
                    *cfg,
                    &self.scorer.search_of(residual, *block, block.env.params, cfg.refine),
                    &self.judge,
                    before,
                    cache@,
                    one,
                ));
                assert(self.seed_found(*cfg, *block, residual@, seed, before, cache@, one));
                let grown = caches.push(cache@);
                assert forall|j: int| 0 <= j < i + 1 implies self.seed_found(
                    *cfg,
                    mp.dict.blocks@[seeds@[j].block as int],
                    residual@,
                    seeds@[j],
                    grown[j],
                    grown[j + 1],
                    #[trigger] out@.push(one)[j],
                ) by {
                    if j < i {
                        assert(out@.push(one)[j] == out@[j]);
                    }
                }
                caches = grown;
            }
            out.push(one);
            i += 1;
        }
        (out, Ghost(caches))
    }

    /// Take the selected candidate out of the residual, and bring the tables up with it. Says whether
    /// the pursuit is over.
    fn take(
        &self,
        mp: &mut Mp<'_>,
        cfg: &MpConfig,
        run: &mut Run,
        residual: &mut Vec<Single>,
        now: &mut Energies,
        best: Candidate,
        Ghost(cache): Ghost<CacheState>,
    ) -> (stop: bool)
        requires
            self.ready(),
            workable(*old(mp)),
            old(residual)@.len() == old(mp).len,
            best.seed.onset < old(mp).len,
            forall|i: int|
                0 <= i < old(run).selections@.len() ==> inside(
                    #[trigger] old(run).selections@[i],
                    old(mp).len as int,
                ),
        ensures
            workable(*final(mp)),
            final(mp).same_shape(*old(mp)),
            final(residual)@.len() == old(residual)@.len(),
            final(run).stalls == old(run).stalls,
            forall|i: int|
                0 <= i < final(run).selections@.len() ==> inside(
                    #[trigger] final(run).selections@[i],
                    old(mp).len as int,
                ),
            !stop ==> final(run).selections@.len() == old(run).selections@.len() + 1,
            exists|drawn: Option<Vec<Single>>|
                {
                    let s = Stand {
                        tables: *old(mp),
                        residual: old(residual)@,
                        energies: *old(now),
                        cache,
                        selections: old(run).selections@,
                        stalls: old(run).stalls as int,
                    };
                    let next = Stand {
                        tables: *final(mp),
                        residual: final(residual)@,
                        energies: *final(now),
                        cache,
                        selections: final(run).selections@,
                        stalls: final(run).stalls as int,
                    };
                    &&& #[trigger] call_ensures(self.synth, (best.atom,), drawn)
                    &&& match drawn {
                        Some(atom) => self.taken(*cfg, s, best, atom@, next, stop),
                        None => stop && next == s,
                    }
                },
    {
        let r = &self.scorer.reals;
        let ghost before = residual@;
        let drawn = (self.synth)(best.atom);
        let ghost shown = drawn;
        assert(call_ensures(self.synth, (best.atom,), shown));
        let atom = match drawn {
            Some(atom) => atom,
            None => {
                return true;
            },
        };
        let o = match overlap(residual.len(), atom.len(), best.atom.t0) {
            Some(o) => o,
            None => {
                return true;
            },
        };
        proof {
            law_the_overlap_is_what_is_shared(
                residual@.len() as int,
                atom@.len() as int,
                best.atom.t0 as int,
            );
        }
        let was = now.whole;
        let left = subtract(r, residual, atom.as_slice(), o, mp.core_len, *now);
        *now = left;
        assert(residual@ =~= without(r, before, atom@, o));
        let done = Subtraction { tau: o.tau, atom_len: o.len, before: was, after: left.whole };
        let action = run.subtracted(r, cfg, best, Some(done));
        if was.le(left.whole) {
            return true;
        }
        if cfg.full_update {
            assert forall|b: int| 0 <= b < mp.dict.blocks@.len() implies (
            #[trigger] mp.dict.blocks@[b]).hop >= 1 by {
                assert(mp.dict.blocks@[b].wf());
            }
            let every = every_frame(mp.dict.blocks.as_slice(), mp.len);
            proof {
                lemma_every_frame(mp.dict, mp.len as int, every@);
            }
            let exact = refresh_residual(
                r,
                mp.dict.blocks.as_slice(),
                residual.as_slice(),
                every.as_slice(),
                &self.transform,
            );
            mp.refresh_all(exact.as_slice());
            proof {
                assert forall|b: int, n: int|
                    0 <= b < mp.states@.len() && 0 <= n < mp.frames_of(b) implies !(
                #[trigger] mp.states@[b].dirty@[n]) && frame_scanned(
                    r,
                    mp.dict.blocks@[b],
                    residual@,
                    &self.transform,
                    n as usize,
                    (mp.states@[b].bin@[n], mp.states@[b].energy@[n]),
                ) by {
                    assert(holds_scan(mp.states@[b], exact@[b]@));
                    assert(every@[b]@[n] == n);
                    assert(frame_scanned(
                        r,
                        mp.dict.blocks@[b],
                        residual@,
                        &self.transform,
                        every@[b]@[n],
                        exact@[b]@[n],
                    ));
                    assert(mp.states@[b].energy@[n] == exact@[b]@[n].1);
                    assert(mp.states@[b].bin@[n] == exact@[b]@[n].0);
                }
                assert(self.all_exact(*mp, residual@));
            }
        } else {
            let landed = vstd::slice::slice_subrange(atom.as_slice(), o.skip, o.skip + o.len);
            assert(landed@ == atom@.subrange(o.skip as int, o.skip + o.len));
            mp.mark_stale(r, o.tau, landed);
        }
        false
    }

    /// A signal's tables before anything is selected: every frame exact, every count at nothing.
    pub open spec fn begun(
        &self,
        dict: &Dictionary,
        signal: Seq<Single>,
        core_len: int,
        mp: Mp,
        e: Energies,
    ) -> bool {
        let r = &self.scorer.reals;
        &&& workable(mp)
        &&& mp.dict == dict
        &&& mp.len == signal.len()
        &&& mp.core_len == if core_len < signal.len() {
            core_len
        } else {
            signal.len() as int
        }
        &&& self.all_exact(mp, signal)
        &&& forall|b: int|
            0 <= b < mp.states@.len() ==> (#[trigger] mp.states@[b]).lambda_min
                == dict.blocks@[b].least_eigenvalue_of(r)
        &&& mp.marked == 0
        &&& mp.resolved == 0
        &&& forall|b: int|
            0 <= b < mp.per_block@.len() ==> #[trigger] mp.per_block@[b] == (0usize, 0usize)
        &&& e.whole == energy_of(r, signal, signal.len() as int)
        &&& e.core == energy_of(r, signal, mp.core_len as int)
    }

    /// Correlate every frame of every block once, up front.
    ///
    /// Atoms are selected from the first `core_len` samples only. The rest is still correlated and
    /// still subtracted from: it is what an atom near the core's end extends into.
    pub fn begin<'a>(&self, dict: &'a Dictionary, signal: &[Single], core_len: usize) -> (answer: (
        Mp<'a>,
        Energies,
    ))
        requires
            self.ready(),
            pursuable(dict, signal@.len() as int),
        ensures
            self.begun(dict, signal@, core_len as int, answer.0, answer.1),
    {
        let r = &self.scorer.reals;
        let len: usize = signal.len();
        assert forall|b: int| 0 <= b < dict.blocks@.len() implies (#[trigger] dict.blocks@[b]).hop
            >= 1 by {
            assert(scannable(dict.blocks@[b]));
        }
        let every = every_frame(dict.blocks.as_slice(), len);
        proof {
            lemma_every_frame(dict, len as int, every@);
        }
        let exact = refresh_residual(
            r,
            dict.blocks.as_slice(),
            signal,
            every.as_slice(),
            &self.transform,
        );
        assert forall|b: int| 0 <= b < dict.blocks@.len() implies {
            &&& (#[trigger] dict.blocks@[b]).wf()
            &&& dict.blocks@[b].support() >= 1
            &&& exact@[b]@.len() == frames(dict.blocks@[b].hop as int, len as int)
        } by {
            assert(scannable(dict.blocks@[b]));
            assert(every@[b]@.len() == frames(dict.blocks@[b].hop as int, len as int));
        }
        let mp = Mp::with_core(r, dict, len, exact.as_slice(), core_len);
        proof {
            assert(workable(mp));
            assert forall|b: int, n: int|
                0 <= b < mp.states@.len() && 0 <= n < mp.frames_of(b) implies !(
            #[trigger] mp.states@[b].dirty@[n]) && frame_scanned(
                r,
                mp.dict.blocks@[b],
                signal@,
                &self.transform,
                n as usize,
                (mp.states@[b].bin@[n], mp.states@[b].energy@[n]),
            ) by {
                assert(holds_scan(mp.states@[b], exact@[b]@));
                assert(every@[b]@[n] == n);
                assert(frame_scanned(
                    r,
                    mp.dict.blocks@[b],
                    signal@,
                    &self.transform,
                    every@[b]@[n],
                    exact@[b]@[n],
                ));
                assert(mp.states@[b].energy@[n] == exact@[b]@[n].1);
                assert(mp.states@[b].bin@[n] == exact@[b]@[n].0);
            }
        }
        let whole = energy(r, signal);
        let core = if mp.core_len == len {
            whole
        } else {
            let head = vstd::slice::slice_subrange(signal, 0, mp.core_len);
            proof {
                lemma_energy_of_head(r, signal@, mp.core_len as int, mp.core_len as int);
            }
            energy(r, head)
        };
        (mp, Energies { whole, core })
    }

    /// Decompose a residual over its tables.
    ///
    /// `energies` are the residual's own, and `initial` the energy of its core at the start, which
    /// what is left is held against. The residual is left with everything selected taken out, and
    /// its energies are returned with what was selected.
    pub fn run_with(
        &self,
        mp: &mut Mp<'_>,
        cfg: &MpConfig,
        residual: &mut Vec<Single>,
        initial: Double,
        energies: Energies,
        cache: &mut EnvelopeCache,
    ) -> (answer: (Vec<Selection>, Energies))
        requires
            self.ready(),
            workable(*old(mp)),
            old(residual)@.len() == old(mp).len,
            old(cache).wf(),
            cfg.candidate_count >= 1,
        ensures
            workable(*final(mp)),
            final(mp).same_shape(*old(mp)),
            final(residual)@.len() == old(residual)@.len(),
            final(cache).wf(),
            forall|i: int|
                0 <= i < answer.0@.len() ==> inside(#[trigger] answer.0@[i], old(mp).len as int),
            exists|trace: Seq<Stand>|
                {
                    &&& #[trigger] self.is_run(*cfg, initial, trace)
                    &&& trace[0] == (Stand {
                        tables: *old(mp),
                        residual: old(residual)@,
                        energies,
                        cache: old(cache)@,
                        selections: Seq::empty(),
                        stalls: 0,
                    })
                    &&& trace.last().tables == *final(mp)
                    &&& trace.last().residual == final(residual)@
                    &&& trace.last().energies == answer.1
                    &&& trace.last().cache == final(cache)@
                    &&& trace.last().selections == answer.0@
                },
    {
        let mut now = energies;
        let mut run = Run::new();
        assert(run.selections@ =~= Seq::empty());
        let ghost first = Stand {
            tables: *mp,
            residual: residual@,
            energies,
            cache: cache@,
            selections: run.selections@,
            stalls: 0,
        };
        let ghost mut trace = seq![first];
        loop
            invariant_except_break
                run.stalls == 0 || run.stalls < cfg.max_stalls,
                trace.len() >= 1,
                trace[0] == first,
                trace.last() == (Stand {
                    tables: *mp,
                    residual: residual@,
                    energies: now,
                    cache: cache@,
                    selections: run.selections@,
                    stalls: run.stalls as int,
                }),
                forall|i: int|
                    #![trigger trace[i]]
                    0 <= i < trace.len() - 1 ==> self.turn(
                        *cfg,
                        initial,
                        trace[i],
                        trace[i + 1],
                        false,
                    ),
            invariant
                self.ready(),
                workable(*mp),
                mp.same_shape(first.tables),
                first.tables == *old(mp),
                residual@.len() == mp.len,
                mp.len == old(mp).len,
                cache.wf(),
                cfg.candidate_count >= 1,
                forall|i: int|
                    0 <= i < run.selections@.len() ==> inside(
                        #[trigger] run.selections@[i],
                        mp.len as int,
                    ),
            ensures
                workable(*mp),
                mp.same_shape(first.tables),
                residual@.len() == mp.len,
                cache.wf(),
                forall|i: int|
                    0 <= i < run.selections@.len() ==> inside(
                        #[trigger] run.selections@[i],
                        mp.len as int,
                    ),
                self.is_run(*cfg, initial, trace),
                trace[0] == first,
                trace.last().tables == *mp,
                trace.last().residual == residual@,
                trace.last().energies == now,
                trace.last().cache == cache@,
                trace.last().selections == run.selections@,
            decreases cfg.max_atoms - run.selections@.len(), cfg.max_stalls - run.stalls,
        {
            let ghost s = trace.last();
            if run.selections.len() >= cfg.max_atoms {
                proof {
                    assert(self.turn(*cfg, initial, s, s, true));
                    trace = self.lemma_end(*cfg, initial, trace, s);
                }
                break;
            }
            let stop = (self.cancel)();
            if stop {
                proof {
                    assert(self.turn(*cfg, initial, s, s, true));
                    trace = self.lemma_end(*cfg, initial, trace, s);
                }
                break;
            }
            let snr = (self.snr)(initial, now.core);
            if cfg.target_snr_db.le(snr) {
                proof {
                    assert(call_ensures(self.snr, (initial, s.energies.core), snr));
                    assert(self.turn(*cfg, initial, s, s, true));
                    trace = self.lemma_end(*cfg, initial, trace, s);
                }
                break;
            }
            assert(self.goes_on(*cfg, initial, s)) by {
                assert(call_ensures(self.snr, (initial, s.energies.core), snr));
            }
            let action = run.poll(&self.scorer.reals, mp, cfg, stop, snr, now.core);
            let action = self.settle(&run, mp, cfg, residual.as_slice(), action);
            let ghost settled = Stand { tables: *mp, ..s };
            let ghost passes = choose|passes: Seq<Mp>|
                {
                    &&& #[trigger] self.settled(passes, s.residual, cfg.candidate_count as int)
                    &&& passes[0] == s.tables
                    &&& passes.last() == settled.tables
                };
            let seeds = match action {
                Action::Score(seeds) => seeds,
                _ => {
                    proof {
                        assert(self.searched(*cfg, settled, settled, true));
                        assert(self.settled(passes, s.residual, cfg.candidate_count as int));
                        assert(self.turn(*cfg, initial, s, settled, true));
                        trace = self.lemma_end(*cfg, initial, trace, settled);
                    }
                    break;
                },
            };
            proof {
                lemma_seeds_in_tables(*mp, cfg.candidate_count as int);
            }
            let (scored, Ghost(caches)) = self.score_seeds(
                mp,
                cfg,
                residual.as_slice(),
                seeds.as_slice(),
                cache,
            );
            let ghost rated = Stand { cache: cache@, ..settled };
            let action = run.scored(mp, cfg, scored.as_slice());
            let ghost u = *mp;
            proof {
                assert(demoted(rated.tables, u, rejects(scored@, scored@.len() as int)));
                assert(self.all_scored(
                    *cfg,
                    settled.tables,
                    settled.residual,
                    seeds@,
                    scored@,
                    caches,
                ));
                assert(workable(u));
                lemma_best_was_scored(scored@, scored@.len() as int);
            }
            match action {
                Action::Subtract(best) => {
                    let over = self.take(mp, cfg, &mut run, residual, &mut now, best, Ghost(cache@));
                    let ghost next = Stand {
                        tables: *mp,
                        residual: residual@,
                        energies: now,
                        cache: cache@,
                        selections: run.selections@,
                        stalls: run.stalls as int,
                    };
                    proof {
                        assert(self.decided(*cfg, rated, scored@, next, over));
                        assert(self.searched(*cfg, settled, next, over));
                        assert(self.settled(passes, s.residual, cfg.candidate_count as int));
                        assert(self.turn(*cfg, initial, s, next, over));
                    }
                    if over {
                        proof {
                            trace = self.lemma_end(*cfg, initial, trace, next);
                        }
                        break;
                    }
                    proof {
                        trace = self.lemma_more(*cfg, initial, trace, next);
                    }
                },
                Action::Poll => {
                    let ghost next = Stand { tables: u, stalls: run.stalls as int, ..rated };
                    proof {
                        assert(self.decided(*cfg, rated, scored@, next, false));
                        assert(self.searched(*cfg, settled, next, false));
                        assert(self.settled(passes, s.residual, cfg.candidate_count as int));
                        assert(self.turn(*cfg, initial, s, next, false));
                        trace = self.lemma_more(*cfg, initial, trace, next);
                    }
                },
                _ => {
                    let ghost next = Stand { tables: u, stalls: run.stalls as int, ..rated };
                    proof {
                        assert(self.decided(*cfg, rated, scored@, next, true));
                        assert(self.searched(*cfg, settled, next, true));
                        assert(self.settled(passes, s.residual, cfg.candidate_count as int));
                        assert(self.turn(*cfg, initial, s, next, true));
                        trace = self.lemma_end(*cfg, initial, trace, next);
                    }
                    break;
                },
            }
        }
        (run.selections, now)
    }

    proof fn lemma_end<'b>(&self, cfg: MpConfig, initial: Double, trace: Seq<Stand<'b>>, next: Stand<'b>) -> (r: Seq<
        Stand<'b>,
    >)
        requires
            trace.len() >= 1,
            forall|i: int|
                #![trigger trace[i]]
                0 <= i < trace.len() - 1 ==> self.turn(cfg, initial, trace[i], trace[i + 1], false),
            self.turn(cfg, initial, trace.last(), next, true),
        ensures
            r == trace.push(next),
            self.is_run(cfg, initial, r),
            r[0] == trace[0],
            r.last() == next,
    {
        let r = trace.push(next);
        assert forall|i: int| #![trigger r[i]] 0 <= i < r.len() - 1 implies self.turn(
            cfg,
            initial,
            r[i],
            r[i + 1],
            i == r.len() - 2,
        ) by {
            if i < trace.len() - 1 {
                assert(r[i] == trace[i] && r[i + 1] == trace[i + 1]);
            }
        }
        r
    }

    proof fn lemma_more<'b>(&self, cfg: MpConfig, initial: Double, trace: Seq<Stand<'b>>, next: Stand<'b>) -> (r: Seq<
        Stand<'b>,
    >)
        requires
            trace.len() >= 1,
            forall|i: int|
                #![trigger trace[i]]
                0 <= i < trace.len() - 1 ==> self.turn(cfg, initial, trace[i], trace[i + 1], false),
            self.turn(cfg, initial, trace.last(), next, false),
        ensures
            r == trace.push(next),
            r[0] == trace[0],
            r.last() == next,
            forall|i: int|
                #![trigger r[i]]
                0 <= i < r.len() - 1 ==> self.turn(cfg, initial, r[i], r[i + 1], false),
    {
        let r = trace.push(next);
        assert forall|i: int| #![trigger r[i]] 0 <= i < r.len() - 1 implies self.turn(
            cfg,
            initial,
            r[i],
            r[i + 1],
            false,
        ) by {
            if i < trace.len() - 1 {
                assert(r[i] == trace[i] && r[i + 1] == trace[i + 1]);
            }
        }
        r
    }
}

/// A frame of a block starts inside the residual.
proof fn lemma_frame_inside(block: Block, len: int, n: int)
    requires
        block.wf(),
        0 <= len,
        0 <= n < frames(block.hop as int, len),
    ensures
        0 <= n * block.hop < len,
{
    let hop = block.hop as int;
    law_frames_cover_the_signal(hop, len);
    assert(n * hop <= (frames(hop, len) - 1) * hop) by (nonlinear_arith)
        requires
            0 <= n <= frames(hop, len) - 1,
            hop >= 1,
    ;
    assert(0 <= n * hop) by (nonlinear_arith)
        requires
            0 <= n,
            hop >= 1,
    ;
}

/// Every frame of every block can be scanned.
proof fn lemma_every_frame(dict: &Dictionary, len: int, every: Seq<Vec<usize>>)
    requires
        pursuable(dict, len),
        0 <= len <= usize::MAX,
        every.len() == dict.blocks@.len(),
        forall|b: int|
            0 <= b < every.len() ==> (#[trigger] every[b])@ == numbered(
                frames(dict.blocks@[b].hop as int, len),
            ),
    ensures
        forall|b: int, i: int|
            0 <= b < dict.blocks@.len() && 0 <= i < every[b]@.len() ==> #[trigger] every[b]@[i]
                * dict.blocks@[b].hop <= usize::MAX,
        forall|b: int|
            0 <= b < every.len() ==> (#[trigger] every[b])@.len() == frames(
                dict.blocks@[b].hop as int,
                len,
            ),
        forall|b: int, n: int|
            0 <= b < every.len() && 0 <= n < frames(dict.blocks@[b].hop as int, len)
                ==> #[trigger] every[b]@[n] == n,
{
    assert forall|b: int| 0 <= b < every.len() implies (#[trigger] every[b])@.len() == frames(
        dict.blocks@[b].hop as int,
        len,
    ) by {
        assert(scannable(dict.blocks@[b]));
        if len >= 1 {
            law_frames_cover_the_signal(dict.blocks@[b].hop as int, len);
        }
        assert(every[b]@ == numbered(frames(dict.blocks@[b].hop as int, len)));
    }
    assert forall|b: int, n: int|
        0 <= b < every.len() && 0 <= n < frames(
            dict.blocks@[b].hop as int,
            len,
        ) implies #[trigger] every[b]@[n] == n by {
        assert(scannable(dict.blocks@[b]));
        assert(every[b]@ == numbered(frames(dict.blocks@[b].hop as int, len)));
        assert(every[b]@.len() == frames(dict.blocks@[b].hop as int, len));
        assert(every[b]@[n] == n as usize);
        assert(every[b].len() == every[b]@.len());
    }
    assert forall|b: int, i: int|
        0 <= b < dict.blocks@.len() && 0 <= i < every[b]@.len() implies #[trigger] every[b]@[i]
        * dict.blocks@[b].hop <= usize::MAX by {
        assert(scannable(dict.blocks@[b]));
        assert(every[b]@.len() == frames(dict.blocks@[b].hop as int, len));
        assert(every[b]@[i] == i);
        lemma_frame_inside(dict.blocks@[b], len, i);
    }
}

/// The energy of a signal's head is that of as many samples.
proof fn lemma_energy_of_head<R: Reals>(r: &R, signal: Seq<Single>, len: int, n: int)
    requires
        0 <= n <= len <= signal.len(),
    ensures
        energy_of(r, signal.subrange(0, len), n) == energy_of(r, signal, n),
    decreases n,
{
    if n > 0 {
        lemma_energy_of_head(r, signal, len, n - 1);
    }
}

} // verus!
