//! A pursuit over a whole signal, a window at a time.
//!
//! Each window's residual, guard and all, is written back before the next window reads it, so every
//! atom is taken out exactly once, and an atom wanted in a guard is deferred to the window that owns
//! it.

use crate::arith::{Drawn, Gram, Params, Rendered};
use crate::atom::{energy, energy_of, AtomParams, Shape};
use crate::cache::{CacheState, EnvelopeCache, ENVELOPE_CACHE_SAMPLES};
use crate::cand::Candidate;
use crate::corr::Projection;
use crate::dict::{Bin, Dictionary};
use crate::ieee::{Double, Single};
use crate::mp::counted;
use crate::pipeline::{Event, Reporter, Said};
use crate::pursue::{inside, pursuable, Kit, Stand};
use crate::pursuit::{MpConfig, Selection, Verdict};
use crate::reals::Reals;
use crate::window::{left_after, placed, planned, windows_for, Window, WindowPlan, WindowedRun};
use vstd::prelude::*;

verus! {

/// A windowed run between two windows.
pub struct Leg {
    pub residual: Seq<Single>,
    pub selections: Seq<Selection>,
    pub marked: int,
    pub resolved: int,
    pub per_block: Seq<(usize, usize)>,
    /// The signal's residual energy, one total end to end.
    pub running: Double,
    pub init: int,
}

impl WindowedRun {
    /// Where a run stands, at a running residual energy.
    pub open spec fn leg(&self, running: Double) -> Leg {
        Leg {
            residual: self.residual@,
            selections: self.selections@,
            marked: self.marked as int,
            resolved: self.resolved as int,
            per_block: self.per_block@,
            running,
            init: self.init as int,
        }
    }
}

/// A configuration with another budget of atoms.
pub open spec fn capped(cfg: MpConfig, max_atoms: usize) -> MpConfig {
    MpConfig { max_atoms, ..cfg }
}

/// The time between two readings of a clock, on top of what was spent before. It stops at the largest
/// machine integer, and a clock that runs backwards adds nothing.
pub open spec fn spent(before: int, from: u64, to: u64) -> int {
    let sum = before + if to >= from {
        to - from
    } else {
        0
    };
    if sum <= u64::MAX {
        sum
    } else {
        u64::MAX as int
    }
}

/// A clock was read twice around what took the time between.
pub open spec fn timed<K: Fn() -> u64>(clock: &K, before: int, after: int) -> bool {
    exists|from: u64, to: u64| #[trigger]
        call_ensures(*clock, (), from) && #[trigger] call_ensures(*clock, (), to) && after == spent(
            before,
            from,
            to,
        )
}

/// Window number `w` of a plan.
pub open spec fn window_of(plan: WindowPlan, total: int, max_atoms: int, w: int) -> Window {
    let (offset, core, end, share) = plan.window_at(total, max_atoms, w);
    Window {
        offset: offset as usize,
        core: core as usize,
        end: end as usize,
        max_atoms: share as usize,
    }
}

/// A stretch of signal, decomposed.
struct Part {
    selections: Vec<Selection>,
    residual: Vec<Single>,
    marked: usize,
    resolved: usize,
    per_block: Vec<(usize, usize)>,
    init: u64,
}

/// The samples from `from` to `to`.
pub(crate) fn stretch(signal: &[Single], from: usize, to: usize) -> (r: Vec<Single>)
    requires
        from <= to <= signal@.len(),
    ensures
        r@ == signal@.subrange(from as int, to as int),
{
    let mut out: Vec<Single> = Vec::new();
    let mut i: usize = from;
    while i < to
        invariant
            from <= i <= to <= signal@.len(),
            out@ == signal@.subrange(from as int, i as int),
        decreases to - i,
    {
        out.push(signal[i]);
        assert(signal@.subrange(from as int, i + 1) =~= signal@.subrange(from as int, i as int).push(
            signal@[i as int],
        ));
        i += 1;
    }
    out
}

/// Put a stretch back where it came from.
fn put_back(signal: &mut Vec<Single>, from: usize, part: &[Single])
    requires
        from + part@.len() <= old(signal)@.len(),
    ensures
        final(signal)@ == old(signal)@.subrange(0, from as int) + part@ + old(signal)@.subrange(
            from + part@.len(),
            old(signal)@.len() as int,
        ),
{
    let ghost start = signal@;
    let room: usize = signal.len();
    let mut i: usize = 0;
    while i < part.len()
        invariant
            i <= part@.len(),
            from + part@.len() <= start.len(),
            signal@.len() == start.len(),
            room == start.len(),
            forall|t: int|
                0 <= t < start.len() ==> #[trigger] signal@[t] == if from <= t < from + i {
                    part@[t - from]
                } else {
                    start[t]
                },
        decreases part@.len() - i,
    {
        let at: usize = from + i;
        signal.set(at, part[i]);
        i += 1;
    }
    assert(signal@ =~= start.subrange(0, from as int) + part@ + start.subrange(
        from + part@.len(),
        start.len() as int,
    ));
}

/// The atoms so far that a finished window tells of.
pub open spec fn atoms_told(said: Said) -> usize {
    match said {
        Said::Window { atoms, .. } => atoms,
        _ => 0,
    }
}

impl<R, E, G, M, U, T, J, S, N, C> Kit<R, E, G, M, U, T, J, S, N, C> where
    R: Reals + Sync,
    E: Fn(Shape) -> Option<Rendered> + Sync,
    G: Fn(&[Single], Params, &Rendered, Option<Gram>) -> Double + Sync,
    M: Fn(&Rendered, Single) -> Gram + Sync,
    U: Fn(&[Single], Params, &Rendered) -> Option<Projection> + Sync,
    T: Fn(Vec<Single>) -> Vec<Bin> + Sync,
    J: Fn(&[Single], Candidate) -> Option<Verdict>,
    S: Fn(AtomParams) -> Option<Vec<Single>>,
    N: Fn(Double, Double) -> Single,
    C: Fn() -> bool,
{
    /// A pursuit of one stretch of signal, from fresh tables to its end.
    #[verifier::opaque]
    pub open spec fn decomposed(
        &self,
        dict: &Dictionary,
        cfg: MpConfig,
        signal: Seq<Single>,
        core_len: int,
        trace: Seq<Stand>,
    ) -> bool {
        let first = trace[0];
        &&& self.begun(dict, signal, core_len, first.tables, first.energies)
        &&& first.residual == signal
        &&& first.cache == (CacheState {
            entries: Map::empty(),
            samples: 0,
            budget: ENVELOPE_CACHE_SAMPLES as int,
            peak: 0,
            clears: 0,
        })
        &&& first.selections == Seq::<Selection>::empty()
        &&& first.stalls == 0
        &&& self.is_run(cfg, first.energies.core, trace)
    }

    /// One window has been decomposed, written back and added to the run.
    pub open spec fn one_window<K: Fn() -> u64>(
        &self,
        dict: &Dictionary,
        cfg: MpConfig,
        clock: &K,
        w: Window,
        s: Leg,
        next: Leg,
    ) -> bool {
        exists|trace: Seq<Stand>|
            {
                let sel = trace.last().selections;
                let tables = trace.last().tables;
                &&& #[trigger] self.decomposed(
                    dict,
                    capped(cfg, w.max_atoms),
                    s.residual.subrange(w.offset as int, w.end as int),
                    w.core as int,
                    trace,
                )
                &&& next.residual == s.residual.subrange(0, w.offset as int)
                    + trace.last().residual + s.residual.subrange(
                    w.end as int,
                    s.residual.len() as int,
                )
                &&& next.selections == s.selections + Seq::new(
                    sel.len(),
                    |i: int|
                        placed(
                            sel[i],
                            w.offset as int,
                            left_after(&self.scorer.reals, s.running, sel, i + 1),
                        ),
                )
                &&& next.running == left_after(&self.scorer.reals, s.running, sel, sel.len() as int)
                &&& next.marked == counted(s.marked + tables.marked)
                &&& next.resolved == counted(s.resolved + tables.resolved)
                &&& next.per_block == Seq::new(
                    s.per_block.len(),
                    |b: int|
                        (
                            counted(s.per_block[b].0 + tables.per_block@[b].0) as usize,
                            counted(s.per_block[b].1 + tables.per_block@[b].1) as usize,
                        ),
                )
                &&& timed(clock, s.init, next.init)
            }
    }

    /// Window after window, until they are all done or the host says stop.
    pub open spec fn is_windowed<K: Fn() -> u64>(
        &self,
        dict: &Dictionary,
        cfg: MpConfig,
        plan: WindowPlan,
        clock: &K,
        total: int,
        legs: Seq<Leg>,
    ) -> bool {
        let done = legs.len() - 1;
        let count = windows_for(total, plan.core_len as int);
        &&& 0 <= done <= count
        &&& done < count ==> call_ensures(self.cancel, (), true)
        &&& done > 0 ==> call_ensures(self.cancel, (), false)
        &&& forall|i: int|
            #![trigger legs[i]]
            0 <= i < done ==> self.one_window(
                dict,
                cfg,
                clock,
                window_of(plan, total, cfg.max_atoms as int, i),
                legs[i],
                legs[i + 1],
            )
    }

    /// What is said of a run's windows: each as it is done, how many there are, and the atoms so far.
    pub open spec fn told_of(plan: WindowPlan, legs: Seq<Leg>) -> Seq<Said> {
        Seq::new(
            (legs.len() - 1) as nat,
            |i: int|
                Said::Window {
                    index: (i + 1) as usize,
                    of: plan.count,
                    atoms: legs[i + 1].selections.len() as usize,
                },
        )
    }

    /// A whole run, and what was said of it. A plan of one window is one pursuit of the whole signal.
    pub open spec fn is_windowed_run<K: Fn() -> u64>(
        &self,
        dict: &Dictionary,
        signal: Seq<Single>,
        cfg: MpConfig,
        plan: WindowPlan,
        clock: &K,
        run: WindowedRun,
        told: Seq<Said>,
    ) -> bool {
        let total = signal.len() as int;
        if plan.count <= 1 {
            &&& timed(clock, 0, run.init as int)
            &&& told == seq![
                Said::Window { index: 1, of: plan.count, atoms: run.selections@.len() as usize },
            ]
            &&& exists|trace: Seq<Stand>|
                {
                    &&& #[trigger] self.decomposed(dict, cfg, signal, total, trace)
                    &&& trace.last().selections == run.selections@
                    &&& trace.last().residual == run.residual@
                    &&& trace.last().tables.marked == run.marked
                    &&& trace.last().tables.resolved == run.resolved
                    &&& trace.last().tables.per_block@ == run.per_block@
                }
        } else {
            exists|legs: Seq<Leg>|
                {
                    &&& #[trigger] self.is_windowed(dict, cfg, plan, clock, total, legs)
                    &&& legs[0] == (Leg {
                        residual: signal,
                        selections: Seq::empty(),
                        marked: 0,
                        resolved: 0,
                        per_block: Seq::new(dict.blocks@.len(), |b: int| (0usize, 0usize)),
                        running: energy_of(&self.scorer.reals, signal, total),
                        init: 0,
                    })
                    &&& legs.last() == run.leg(legs.last().running)
                    &&& told == Self::told_of(plan, legs)
                }
        }
    }

    /// Decompose one stretch of signal.
    fn decompose<K: Fn() -> u64>(
        &self,
        dict: &Dictionary,
        cfg: &MpConfig,
        clock: &K,
        signal: Vec<Single>,
        core_len: usize,
        before: u64,
    ) -> (answer: Part)
        requires
            self.ready(),
            call_requires(*clock, ()),
            pursuable(dict, signal@.len() as int),
            cfg.candidate_count >= 1,
        ensures
            answer.residual@.len() == signal@.len(),
            answer.per_block@.len() == dict.blocks@.len(),
            forall|i: int|
                0 <= i < answer.selections@.len() ==> inside(
                    #[trigger] answer.selections@[i],
                    signal@.len() as int,
                ),
            timed(clock, before as int, answer.init as int),
            exists|trace: Seq<Stand>|
                {
                    &&& #[trigger] self.decomposed(dict, *cfg, signal@, core_len as int, trace)
                    &&& trace.last().selections == answer.selections@
                    &&& trace.last().residual == answer.residual@
                    &&& trace.last().tables.marked == answer.marked
                    &&& trace.last().tables.resolved == answer.resolved
                    &&& trace.last().tables.per_block@ == answer.per_block@
                },
    {
        let from = clock();
        let (mut mp, energies) = self.begin(dict, signal.as_slice(), core_len);
        let to = clock();
        let init: u64 = before.saturating_add(to.saturating_sub(from));
        proof {
            assert(call_ensures(*clock, (), from));
            assert(call_ensures(*clock, (), to));
            assert(init == spent(before as int, from, to));
        }
        let ghost first = mp;
        let ghost heard = signal@;
        let mut cache = EnvelopeCache::new();
        let mut residual = signal;
        let (selections, _) = self.run_with(
            &mut mp,
            cfg,
            &mut residual,
            energies.core,
            energies,
            &mut cache,
        );
        proof {
            let trace = choose|trace: Seq<Stand>|
                {
                    &&& #[trigger] self.is_run(*cfg, energies.core, trace)
                    &&& trace[0].tables == first
                    &&& trace[0].residual == heard
                    &&& trace[0].energies == energies
                    &&& trace[0].cache.entries == Map::<u128, Option<Drawn>>::empty()
                    &&& trace[0].cache.samples == 0
                    &&& trace[0].cache.budget == ENVELOPE_CACHE_SAMPLES
                    &&& trace[0].cache.peak == 0
                    &&& trace[0].cache.clears == 0
                    &&& trace[0].selections == Seq::<Selection>::empty()
                    &&& trace[0].stalls == 0
                    &&& trace.last().tables == mp
                    &&& trace.last().residual == residual@
                    &&& trace.last().selections == selections@
                };
            reveal(Kit::decomposed);
            assert(self.decomposed(dict, *cfg, heard, core_len as int, trace));
        }
        Part {
            selections,
            residual,
            marked: mp.marked,
            resolved: mp.resolved,
            per_block: mp.per_block,
            init,
        }
    }

    /// Decompose one window, write it back, and add it to the run.
    fn do_window<K: Fn() -> u64>(
        &self,
        dict: &Dictionary,
        cfg: &MpConfig,
        clock: &K,
        win: Window,
        run: &mut WindowedRun,
        running: Double,
    ) -> (left: Double)
        requires
            self.ready(),
            call_requires(*clock, ()),
            pursuable(dict, old(run).residual@.len() as int),
            cfg.candidate_count >= 1,
            win.offset <= win.end <= old(run).residual@.len(),
            old(run).per_block@.len() == dict.blocks@.len(),
        ensures
            final(run).residual@.len() == old(run).residual@.len(),
            final(run).per_block@.len() == dict.blocks@.len(),
            self.one_window(dict, *cfg, clock, win, old(run).leg(running), final(run).leg(left)),
    {
        let ghost s = run.leg(running);
        let signal = stretch(run.residual.as_slice(), win.offset, win.end);
        let ghost heard = signal@;
        let share = MpConfig { max_atoms: win.max_atoms, ..*cfg };
        let part = self.decompose(dict, &share, clock, signal, win.core, run.init);
        let ghost trace = choose|trace: Seq<Stand>|
            {
                &&& #[trigger] self.decomposed(dict, share, heard, win.core as int, trace)
                &&& trace.last().selections == part.selections@
                &&& trace.last().residual == part.residual@
                &&& trace.last().tables.marked == part.marked
                &&& trace.last().tables.resolved == part.resolved
                &&& trace.last().tables.per_block@ == part.per_block@
            };
        put_back(&mut run.residual, win.offset, part.residual.as_slice());
        assert forall|i: int| 0 <= i < part.selections@.len() implies {
            &&& (#[trigger] part.selections@[i]).atom.t0 + win.offset <= i64::MAX
            &&& part.selections@[i].onset + win.offset <= usize::MAX
        } by {
            assert(inside(part.selections@[i], heard.len() as int));
        }
        run.init = part.init;
        let left = run.absorb(
            &self.scorer.reals,
            win.offset,
            part.selections.as_slice(),
            running,
            (part.marked, part.resolved),
            part.per_block.as_slice(),
        );
        proof {
            let next = run.leg(left);
            let sel = trace.last().selections;
            let tables = trace.last().tables;
            assert(share == capped(*cfg, win.max_atoms));
            assert(heard == s.residual.subrange(win.offset as int, win.end as int));
            assert(next.residual == s.residual.subrange(0, win.offset as int)
                + trace.last().residual + s.residual.subrange(
                win.end as int,
                s.residual.len() as int,
            ));
            assert(next.selections =~= s.selections + Seq::new(
                sel.len(),
                |i: int|
                    placed(
                        sel[i],
                        win.offset as int,
                        left_after(&self.scorer.reals, s.running, sel, i + 1),
                    ),
            ));
            assert(next.per_block =~= Seq::new(
                s.per_block.len(),
                |b: int|
                    (
                        counted(s.per_block[b].0 + tables.per_block@[b].0) as usize,
                        counted(s.per_block[b].1 + tables.per_block@[b].1) as usize,
                    ),
            ));
            assert(self.one_window(dict, *cfg, clock, win, s, next));
        }
        left
    }

    /// One more window makes one more leg.
    proof fn lemma_leg<K: Fn() -> u64>(
        &self,
        dict: &Dictionary,
        cfg: MpConfig,
        plan: WindowPlan,
        clock: &K,
        total: int,
        legs: Seq<Leg>,
        next: Leg,
    ) -> (grown: Seq<Leg>)
        requires
            legs.len() >= 1,
            forall|i: int|
                #![trigger legs[i]]
                0 <= i < legs.len() - 1 ==> self.one_window(
                    dict,
                    cfg,
                    clock,
                    window_of(plan, total, cfg.max_atoms as int, i),
                    legs[i],
                    legs[i + 1],
                ),
            self.one_window(
                dict,
                cfg,
                clock,
                window_of(plan, total, cfg.max_atoms as int, legs.len() - 1),
                legs.last(),
                next,
            ),
        ensures
            grown == legs.push(next),
            forall|i: int|
                #![trigger grown[i]]
                0 <= i < grown.len() - 1 ==> self.one_window(
                    dict,
                    cfg,
                    clock,
                    window_of(plan, total, cfg.max_atoms as int, i),
                    grown[i],
                    grown[i + 1],
                ),
    {
        let grown = legs.push(next);
        assert forall|i: int| #![trigger grown[i]] 0 <= i < grown.len() - 1 implies self.one_window(
            dict,
            cfg,
            clock,
            window_of(plan, total, cfg.max_atoms as int, i),
            grown[i],
            grown[i + 1],
        ) by {
            if i < legs.len() - 1 {
                assert(grown[i] == legs[i] && grown[i + 1] == legs[i + 1]);
            }
        }
        grown
    }

    proof fn lemma_atoms_never_fall<K: Fn() -> u64>(
        &self,
        dict: &Dictionary,
        cfg: MpConfig,
        plan: WindowPlan,
        clock: &K,
        total: int,
        legs: Seq<Leg>,
        i: int,
        j: int,
    )
        requires
            self.is_windowed(dict, cfg, plan, clock, total, legs),
            0 <= i <= j < legs.len(),
        ensures
            legs[i].selections.len() <= legs[j].selections.len(),
        decreases j - i,
    {
        if i < j {
            self.lemma_atoms_never_fall(dict, cfg, plan, clock, total, legs, i, j - 1);
            assert(self.one_window(
                dict,
                cfg,
                clock,
                window_of(plan, total, cfg.max_atoms as int, j - 1),
                legs[j - 1],
                legs[j - 1 + 1],
            ));
        }
    }

    /// A run no one stops says so after each window of its plan, in order, and the count of atoms it
    /// gives never falls and ends at the whole run's.
    pub proof fn law_every_window_is_told<K: Fn() -> u64>(
        &self,
        dict: &Dictionary,
        signal: Seq<Single>,
        cfg: MpConfig,
        budget_bytes: usize,
        forced_core: Option<usize>,
        plan: WindowPlan,
        clock: &K,
        run: WindowedRun,
        told: Seq<Said>,
    )
        requires
            1 <= signal.len(),
            planned(
                &self.scorer.reals,
                *dict,
                signal.len() as int,
                cfg,
                budget_bytes,
                forced_core,
                plan,
            ),
            plan.core_len >= 1,
            !call_ensures(self.cancel, (), true),
            self.is_windowed_run(dict, signal, cfg, plan, clock, run, told),
        ensures
            told.len() == plan.count,
            forall|i: int|
                0 <= i < told.len() ==> (#[trigger] told[i] matches Said::Window { index, of, atoms }
                    && index == i + 1 && of == plan.count),
            forall|i: int, j: int|
                0 <= i <= j < told.len() ==> #[trigger] atoms_told(told[i]) <= #[trigger] atoms_told(
                    told[j],
                ),
            atoms_told(told.last()) == run.selections@.len(),
    {
        let total = signal.len() as int;
        let most = run.selections.len();
        assert(most == run.selections@.len());
        if plan.count > 1 {
            let legs = choose|legs: Seq<Leg>|
                {
                    &&& #[trigger] self.is_windowed(dict, cfg, plan, clock, total, legs)
                    &&& legs.last() == run.leg(legs.last().running)
                    &&& told == Self::told_of(plan, legs)
                };
            assert forall|i: int, j: int| 0 <= i <= j < told.len() implies #[trigger] atoms_told(
                told[i],
            ) <= #[trigger] atoms_told(told[j]) by {
                self.lemma_atoms_never_fall(dict, cfg, plan, clock, total, legs, i + 1, j + 1);
                self.lemma_atoms_never_fall(dict, cfg, plan, clock, total, legs, j + 1, legs.len() - 1);
            }
        }
    }

    /// Decompose a signal a window at a time, so the frame tables never size to the whole of it.
    ///
    /// A plan of one window is one pursuit of the whole signal, and its book is that pursuit's own.
    /// After each window `report` hears which it was, how many there are, and the atoms so far.
    pub fn run_windowed<K: Fn() -> u64, P: Reporter>(
        &self,
        dict: &Dictionary,
        signal: Vec<Single>,
        cfg: &MpConfig,
        plan: &WindowPlan,
        clock: &K,
        report: &mut P,
    ) -> (answer: WindowedRun)
        requires
            self.ready(),
            call_requires(*clock, ()),
            pursuable(dict, signal@.len() as int),
            cfg.candidate_count >= 1,
            plan.core_len >= 1,
        ensures
            answer.residual@.len() == signal@.len(),
            exists|told: Seq<Said>|
                {
                    &&& final(report).heard() == old(report).heard() + told
                    &&& #[trigger] self.is_windowed_run(
                        dict,
                        signal@,
                        *cfg,
                        *plan,
                        clock,
                        answer,
                        told,
                    )
                },
    {
        let ghost known = report.heard();
        let ghost heard = signal@;
        let total: usize = signal.len();
        if plan.count <= 1 {
            let part = self.decompose(dict, cfg, clock, signal, total, 0);
            let run = WindowedRun {
                selections: part.selections,
                residual: part.residual,
                marked: part.marked,
                resolved: part.resolved,
                per_block: part.per_block,
                init: part.init,
            };
            report.event(
                Event::Window { index: 1, of: plan.count, atoms: run.selections.len() },
            );
            proof {
                let told = seq![
                    Said::Window { index: 1, of: plan.count, atoms: run.selections@.len() as usize },
                ];
                assert(report.heard() =~= known + told);
                assert(self.is_windowed_run(dict, heard, *cfg, *plan, clock, run, told));
            }
            return run;
        }
        let mut running = energy(&self.scorer.reals, signal.as_slice());
        let windows = plan.windows(total, cfg.max_atoms);
        let mut run = WindowedRun::new(signal, dict.blocks.len());
        assert(run.selections@ =~= Seq::empty());
        assert(run.per_block@ =~= Seq::new(dict.blocks@.len(), |b: int| (0usize, 0usize)));
        let ghost mut legs = seq![run.leg(running)];
        assert(report.heard() =~= known + Self::told_of(*plan, legs));
        let mut w: usize = 0;
        while w < windows.len()
            invariant
                self.ready(),
                call_requires(*clock, ()),
                pursuable(dict, total as int),
                cfg.candidate_count >= 1,
                plan.count > 1,
                total <= i64::MAX,
                windows@.len() == windows_for(total as int, plan.core_len as int),
                forall|w: int|
                    0 <= w < windows@.len() ==> {
                        &&& (
                            #[trigger] windows@[w].offset as int,
                            windows@[w].core as int,
                            windows@[w].end as int,
                            windows@[w].max_atoms as int,
                        ) == plan.window_at(total as int, cfg.max_atoms as int, w)
                        &&& windows@[w].offset + windows@[w].core <= windows@[w].end <= total
                    },
                w <= windows@.len(),
                run.residual@.len() == total,
                run.per_block@.len() == dict.blocks@.len(),
                legs.len() == w + 1,
                legs[0] == (Leg {
                    residual: heard,
                    selections: Seq::empty(),
                    marked: 0,
                    resolved: 0,
                    per_block: Seq::new(dict.blocks@.len(), |b: int| (0usize, 0usize)),
                    running: energy_of(&self.scorer.reals, heard, heard.len() as int),
                    init: 0,
                }),
                legs.last() == run.leg(running),
                report.heard() == known + Self::told_of(*plan, legs),
                w > 0 ==> call_ensures(self.cancel, (), false),
                forall|i: int|
                    #![trigger legs[i]]
                    0 <= i < w ==> self.one_window(
                        dict,
                        *cfg,
                        clock,
                        window_of(*plan, total as int, cfg.max_atoms as int, i),
                        legs[i],
                        legs[i + 1],
                    ),
            ensures
                w < windows@.len() ==> call_ensures(self.cancel, (), true),
            decreases windows@.len() - w,
        {
            if (self.cancel)() {
                break;
            }
            let win = windows[w];
            assert((
                windows@[w as int].offset as int,
                win.core as int,
                win.end as int,
                win.max_atoms as int,
            ) == plan.window_at(total as int, cfg.max_atoms as int, w as int));
            assert(win == window_of(*plan, total as int, cfg.max_atoms as int, w as int));
            running = self.do_window(dict, cfg, clock, win, &mut run, running);
            proof {
                legs = self.lemma_leg(dict, *cfg, *plan, clock, total as int, legs, run.leg(running));
            }
            w += 1;
            report.event(Event::Window { index: w, of: plan.count, atoms: run.selections.len() });
            assert(report.heard() =~= known + Self::told_of(*plan, legs));
        }
        proof {
            assert(self.is_windowed(dict, *cfg, *plan, clock, total as int, legs));
            assert(self.is_windowed_run(
                dict,
                heard,
                *cfg,
                *plan,
                clock,
                run,
                Self::told_of(*plan, legs),
            ));
        }
        run
    }
}

} // verus!
