//! What holds of every pursuit, whatever it is run on.

use crate::arith::{Gram, Params, Rendered};
use crate::atom::{AtomParams, Shape};
use crate::cache::CacheState;
use crate::cand::{
    distinct_blocks, indexable, is_max, law_selection, peak, seed_at, selection, Candidate, Seed,
};
use crate::corr::Projection;
use crate::dict::{Bin, Block};
use crate::ieee::{Double, Single};
use crate::mp::Mp;
use crate::pursue::{lemma_best_was_scored, Kit, Stand};
use crate::pursuit::{best_of, MpConfig, Scored, Selection, Verdict};
use crate::reals::Reals;
use vstd::prelude::*;

verus! {

/// Where a pursuit may select from: the onsets inside the core.
pub open spec fn in_reach(mp: Mp, onset: int) -> bool {
    mp.core_len == mp.len || onset < mp.core_len
}

/// What one turn makes of a book: nothing, or one more atom.
pub open spec fn grows_by_one(before: Seq<Selection>, after: Seq<Selection>) -> bool {
    ||| after == before
    ||| after.len() == before.len() + 1 && after.drop_last() == before
}

impl<R, E, G, M, U, T, J, S, N, C> Kit<R, E, G, M, U, T, J, S, N, C> where
    R: Reals + Sync,
    E: Fn(Shape) -> Option<Rendered> + Sync,
    G: Fn(&[Single], Params, &Rendered, Option<Gram>) -> Double + Sync,
    M: Fn(&Rendered, Single) -> Gram + Sync,
    U: Fn(&[Single], Params, &Rendered) -> Option<Projection> + Sync,
    T: Fn(Vec<Single>) -> Vec<Bin> + Sync,
    J: Fn(&[Single], Candidate) -> Option<Verdict>,
    S: Fn(AtomParams) -> Option<Vec<Single>>,
    N: Fn(Double, Double) -> Single,
    C: Fn() -> bool,
{
    /// A candidate keeps the onset of the seed it grew from, refined and validated or not.
    proof fn lemma_keeps_its_onset(
        &self,
        cfg: MpConfig,
        block: Block,
        residual: Seq<Single>,
        seed: Seed,
        cache: CacheState,
        left: CacheState,
        answer: Scored,
    )
        requires
            self.seed_found(cfg, block, residual, seed, cache, left, answer),
        ensures
            answer.outcome matches Some(c) ==> c.seed.onset == seed.onset,
    {
    }

    /// What a turn selects starts in the core, comes one at a time, and lowers the energy unless the
    /// pursuit stops there.
    pub proof fn lemma_turn(&self, cfg: MpConfig, initial: Double, s: Stand, next: Stand, stop: bool)
        requires
            s.tables.wf(),
            cfg.candidate_count >= 1,
            self.turn(cfg, initial, s, next, stop),
        ensures
            next.tables.wf(),
            next.tables.len == s.tables.len,
            next.tables.core_len == s.tables.core_len,
            grows_by_one(s.selections, next.selections),
            next.selections.len() > s.selections.len() ==> {
                &&& s.selections.len() < cfg.max_atoms
                &&& in_reach(s.tables, next.selections.last().onset as int)
                &&& !stop ==> !s.energies.whole.at_most(next.energies.whole)
            },
            next.selections == s.selections ==> next.energies == s.energies && next.residual
                == s.residual,
            !stop ==> next.stalls == 0 || next.stalls < cfg.max_stalls,
    {
        if !(self.over(cfg, initial, s) && stop && next == s) {
            let k = cfg.candidate_count as int;
            let passes = choose|passes: Seq<Mp>|
                {
                    &&& #[trigger] self.settled(passes, s.residual, k)
                    &&& passes[0] == s.tables
                    &&& self.searched(cfg, Stand { tables: passes.last(), ..s }, next, stop)
                };
            self.lemma_passes(passes, s.residual, k, passes.len() - 1);
            let t = passes.last();
            let seeds = selection(t.table_views(), k);
            let floor = self.scorer.reals.times_of(s.energies.core, cfg.min_gain_fraction);
            if !(seeds.len() == 0 || seeds[0].energy.at_most(floor)) {
                let (scored, caches) = choose|scored: Seq<Scored>, caches: Seq<CacheState>|
                    {
                        &&& #[trigger] self.all_scored(cfg, t, s.residual, seeds, scored, caches)
                        &&& caches[0] == s.cache
                        &&& self.decided(
                            cfg,
                            Stand { tables: t, cache: caches.last(), ..s },
                            scored,
                            next,
                            stop,
                        )
                    };
                let n = scored.len() as int;
                lemma_best_was_scored(scored, n);
                if let Some(c) = best_of(scored, n) {
                    let j = choose|j: int| 0 <= j < n && (#[trigger] scored[j]).outcome == Some(c);
                    assert(self.seed_found(
                        cfg,
                        t.dict.blocks@[seeds[j].block as int],
                        s.residual,
                        seeds[j],
                        caches[j],
                        caches[j + 1],
                        scored[j],
                    ));
                    self.lemma_keeps_its_onset(
                        cfg,
                        t.dict.blocks@[seeds[j].block as int],
                        s.residual,
                        seeds[j],
                        caches[j],
                        caches[j + 1],
                        scored[j],
                    );
                    lemma_seeds_in_core(t, k, j);
                    if next.selections.len() > s.selections.len() {
                        assert(next.selections.drop_last() =~= s.selections);
                    }
                }
            }
        }
    }

    pub proof fn lemma_passes(&self, passes: Seq<Mp>, residual: Seq<Single>, k: int, i: int)
        requires
            self.settled(passes, residual, k),
            passes[0].wf(),
            0 <= i < passes.len(),
        ensures
            passes[i].wf(),
            passes[i].len == passes[0].len,
            passes[i].core_len == passes[0].core_len,
        decreases i,
    {
        if i > 0 {
            self.lemma_passes(passes, residual, k, i - 1);
            assert(self.resolved_once(passes[i - 1], passes[i - 1 + 1], residual, k));
        }
    }

    proof fn lemma_so_far(
        &self,
        cfg: MpConfig,
        initial: Double,
        trace: Seq<Stand>,
        i: int,
    )
        requires
            self.is_run(cfg, initial, trace),
            cfg.candidate_count >= 1,
            trace[0].tables.wf(),
            trace[0].selections.len() == 0,
            0 <= i < trace.len(),
        ensures
            trace[i].tables.wf(),
            trace[i].tables.len == trace[0].tables.len,
            trace[i].tables.core_len == trace[0].tables.core_len,
            trace[i].selections.len() <= cfg.max_atoms,
            forall|j: int|
                0 <= j < trace[i].selections.len() ==> in_reach(
                    trace[0].tables,
                    (#[trigger] trace[i].selections[j]).onset as int,
                ),
        decreases i,
    {
        if i > 0 {
            self.lemma_so_far(cfg, initial, trace, i - 1);
            let (s, next) = (trace[i - 1], trace[i]);
            assert(self.turn(cfg, initial, s, trace[i - 1 + 1], i - 1 == trace.len() - 2));
            self.lemma_turn(cfg, initial, s, next, i - 1 == trace.len() - 2);
            assert forall|j: int| 0 <= j < next.selections.len() implies in_reach(
                trace[0].tables,
                (#[trigger] next.selections[j]).onset as int,
            ) by {
                if j < s.selections.len() {
                    assert(next.selections[j] == s.selections[j]) by {
                        if next.selections.len() > s.selections.len() {
                            assert(next.selections.drop_last()[j] == next.selections[j]);
                        }
                    }
                }
            }
        }
    }

    /// The budget is atoms, not iterations: a pursuit never selects more than it may, however many
    /// candidates are rejected on the way.
    pub proof fn law_the_budget_is_atoms(&self, cfg: MpConfig, initial: Double, trace: Seq<Stand>)
        requires
            self.is_run(cfg, initial, trace),
            cfg.candidate_count >= 1,
            trace[0].tables.wf(),
            trace[0].selections.len() == 0,
        ensures
            trace.last().selections.len() <= cfg.max_atoms,
    {
        self.lemma_so_far(cfg, initial, trace, trace.len() - 1);
    }

    /// Every atom is selected from the core. What lies past it is subtracted from, and left for whoever
    /// owns it to select.
    pub proof fn law_atoms_are_selected_from_the_core(
        &self,
        cfg: MpConfig,
        initial: Double,
        trace: Seq<Stand>,
        j: int,
    )
        requires
            self.is_run(cfg, initial, trace),
            cfg.candidate_count >= 1,
            trace[0].tables.wf(),
            trace[0].selections.len() == 0,
            0 <= j < trace.last().selections.len(),
        ensures
            in_reach(trace[0].tables, trace.last().selections[j].onset as int),
    {
        self.lemma_so_far(cfg, initial, trace, trace.len() - 1);
    }

    /// A pursuit that has reached its target stops there: it selects nothing more.
    pub proof fn law_a_reached_target_ends_the_pursuit(
        &self,
        cfg: MpConfig,
        initial: Double,
        trace: Seq<Stand>,
        i: int,
    )
        requires
            self.is_run(cfg, initial, trace),
            0 <= i < trace.len() - 1,
            forall|snr: Single| #[trigger]
                call_ensures(self.snr, (initial, trace[i].energies.core), snr)
                    ==> cfg.target_snr_db.at_most(snr),
        ensures
            i == trace.len() - 2,
            trace.last() == trace[i],
    {
        assert(self.turn(cfg, initial, trace[i], trace[i + 1], i == trace.len() - 2));
    }

    /// A cancelled pursuit stops there: it selects nothing more.
    pub proof fn law_a_cancelled_pursuit_ends(
        &self,
        cfg: MpConfig,
        initial: Double,
        trace: Seq<Stand>,
        i: int,
    )
        requires
            self.is_run(cfg, initial, trace),
            0 <= i < trace.len() - 1,
            !call_ensures(self.cancel, (), false),
        ensures
            i == trace.len() - 2,
            trace.last() == trace[i],
    {
        assert(self.turn(cfg, initial, trace[i], trace[i + 1], i == trace.len() - 2));
    }

    /// An atom is only selected short of the target, and where some frame promises more than the least
    /// share worth having of what the core has left.
    pub proof fn law_an_atom_is_worth_selecting(
        &self,
        cfg: MpConfig,
        initial: Double,
        trace: Seq<Stand>,
        i: int,
    )
        requires
            self.is_run(cfg, initial, trace),
            0 <= i < trace.len() - 1,
            trace[i + 1].selections.len() > trace[i].selections.len(),
        ensures
            exists|snr: Single| #[trigger]
                call_ensures(self.snr, (initial, trace[i].energies.core), snr)
                    && !cfg.target_snr_db.at_most(snr),
            exists|t: Mp|
                {
                    let seeds = #[trigger] selection(t.table_views(), cfg.candidate_count as int);
                    &&& seeds.len() > 0
                    &&& !seeds[0].energy.at_most(
                        self.scorer.reals.times_of(trace[i].energies.core, cfg.min_gain_fraction),
                    )
                },
    {
        let (s, next) = (trace[i], trace[i + 1]);
        assert(self.turn(cfg, initial, s, next, i == trace.len() - 2));
        let k = cfg.candidate_count as int;
        let passes = choose|passes: Seq<Mp>|
            {
                &&& #[trigger] self.settled(passes, s.residual, k)
                &&& passes[0] == s.tables
                &&& self.searched(cfg, Stand { tables: passes.last(), ..s }, next, i == trace.len() - 2)
            };
        let t = passes.last();
        let seeds = selection(t.table_views(), k);
        assert(seeds.len() > 0);
    }

    /// Each turn selects at most one atom and forgets none. Every atom lowers the residual's energy,
    /// but for one that stops the pursuit, and nothing else changes the residual.
    pub proof fn law_each_atom_lowers_the_energy(
        &self,
        cfg: MpConfig,
        initial: Double,
        trace: Seq<Stand>,
        i: int,
    )
        requires
            self.is_run(cfg, initial, trace),
            cfg.candidate_count >= 1,
            trace[0].tables.wf(),
            trace[0].selections.len() == 0,
            0 <= i < trace.len() - 1,
        ensures
            grows_by_one(trace[i].selections, trace[i + 1].selections),
            trace[i + 1].selections == trace[i].selections ==> trace[i + 1].residual
                == trace[i].residual && trace[i + 1].energies == trace[i].energies,
            trace[i + 1].selections.len() > trace[i].selections.len() && i < trace.len() - 2
                ==> !trace[i].energies.whole.at_most(trace[i + 1].energies.whole),
    {
        self.lemma_so_far(cfg, initial, trace, i);
        assert(self.turn(cfg, initial, trace[i], trace[i + 1], i == trace.len() - 2));
        self.lemma_turn(cfg, initial, trace[i], trace[i + 1], i == trace.len() - 2);
    }

    /// A pursuit gives up once as many turns in a row as it is allowed rejected everything.
    pub proof fn law_stalls_are_bounded(
        &self,
        cfg: MpConfig,
        initial: Double,
        trace: Seq<Stand>,
        i: int,
    )
        requires
            self.is_run(cfg, initial, trace),
            cfg.candidate_count >= 1,
            trace[0].tables.wf(),
            trace[0].selections.len() == 0,
            trace[0].stalls == 0,
            0 <= i < trace.len() - 1,
        ensures
            trace[i].stalls == 0 || trace[i].stalls < cfg.max_stalls,
    {
        if i > 0 {
            self.lemma_so_far(cfg, initial, trace, i - 1);
            assert(self.turn(
                cfg,
                initial,
                trace[i - 1],
                trace[i - 1 + 1],
                i - 1 == trace.len() - 2,
            ));
            self.lemma_turn(cfg, initial, trace[i - 1], trace[i], i - 1 == trace.len() - 2);
        }
    }
}

/// Seeds are read off frames that start in the core.
proof fn lemma_seeds_in_core(mp: Mp, k: int, i: int)
    requires
        mp.wf(),
        k >= 1,
        0 <= i < selection(mp.table_views(), k).len(),
    ensures
        in_reach(mp, selection(mp.table_views(), k)[i].onset as int),
{
    let ts = mp.table_views();
    assert forall|b: int| 0 <= b < mp.states@.len() implies (#[trigger] mp.states@[b]).energy@.len()
        == mp.frames_of(b) && mp.frames_of(b) <= usize::MAX by {
        assert(mp.states@[b].wf(mp.frames_of(b), mp.dict.blocks@[b].env.samples@));
        assert(mp.states@[b].energy.len() == mp.states@[b].energy@.len());
    }
    assert(mp.states.len() == mp.states@.len());
    assert(indexable(ts)) by {
        assert forall|j: int| 0 <= j < ts.len() implies (#[trigger] ts[j]).seen.len() <= usize::MAX by {
            assert(mp.states@[j].energy@.len() == mp.frames_of(j));
        }
    }
    assert(distinct_blocks(ts));
    law_selection(ts, k);
    let s = selection(ts, k)[i];
    assert(is_max(ts, s));
    let (b, n) = choose|b: int, n: int|
        0 <= b < ts.len() && #[trigger] peak(ts[b], n) && s == seed_at(ts[b], n);
    assert(mp.in_core(b, n));
    crate::mp::lemma_seeds_in_tables(mp, k);
}

} // verus!
