//! What a run leaves is the signal without its atoms.
//!
//! A book is worth something because the sound can be had back from it: put every atom of it where it
//! says it starts, and what was taken out is there again.

use crate::arith::{Gram, Params, Rendered};
use crate::atom::{AtomParams, Shape};
use crate::cache::CacheState;
use crate::cand::{selection, Candidate, Seed};
use crate::corr::Projection;
use crate::dict::{law_a_bin_is_its_share_of_the_rate, Bin, Block, Dictionary};
use crate::equivalence::plain;
use crate::ieee::{Double, Single};
use crate::mp::{lemma_seeds_in_tables, Mp};
use crate::pipeline::Said;
use crate::pursue::{lemma_best_was_scored, Kit, Stand};
use crate::pursuit::{best_of, demoted, rejects, MpConfig, Scored, Selection, Verdict};
use crate::reals::Reals;
use crate::rounding::{close, rounds, tame};
use crate::subtract::overlap_of;
use crate::window::{left_after, placed, windows_for, Window, WindowPlan, WindowedRun};
use crate::windowed::{capped, window_of, Leg};
use vstd::prelude::*;

verus! {

/// An atom's samples, where its first one goes, and the stretch of the signal it was taken out of.
pub struct Removal {
    pub atom: Seq<Single>,
    pub t0: int,
    pub lo: int,
    pub hi: int,
}

/// A signal with the samples of an atom that starts at `t0` subtracted, sample from sample, within a
/// stretch of it.
pub open spec fn taken_out<R: Reals>(r: &R, signal: Seq<Single>, x: Removal) -> Seq<Single> {
    Seq::new(
        signal.len(),
        |t: int|
            if x.lo <= t < x.hi && 0 <= t - x.t0 < x.atom.len() {
                r.minus_single_of(signal[t], x.atom[t - x.t0])
            } else {
                signal[t]
            },
    )
}

/// A signal with one atom after the other taken out.
pub open spec fn all_out<R: Reals>(r: &R, signal: Seq<Single>, xs: Seq<Removal>) -> Seq<Single>
    decreases xs.len(),
{
    if xs.len() == 0 {
        signal
    } else {
        taken_out(r, all_out(r, signal, xs.drop_last()), xs.last())
    }
}

/// A removal from a stretch that starts at `offset`, as one from the whole.
pub open spec fn moved(x: Removal, offset: int) -> Removal {
    Removal { t0: x.t0 + offset, lo: x.lo + offset, hi: x.hi + offset, ..x }
}

impl<R, E, G, M, U, T, J, S, N, C> Kit<R, E, G, M, U, T, J, S, N, C> where
    R: Reals + Sync,
    E: Fn(Shape) -> Option<Rendered> + Sync,
    G: Fn(&[Single], Params, &Rendered, Option<Gram>) -> Double + Sync,
    M: Fn(&Rendered, Single) -> Gram + Sync,
    U: Fn(&[Single], Params, &Rendered) -> Option<Projection> + Sync,
    T: Fn(Vec<Single>) -> Vec<Bin> + Sync,
    J: Fn(&[Single], Candidate) -> Option<Verdict>,
    S: Fn(AtomParams) -> Option<Vec<Single>>,
    N: Fn(Double, Double) -> Single,
    C: Fn() -> bool,
{
    /// Samples that drawing an atom gives, with it placed somewhere.
    pub open spec fn draws(&self, a: AtomParams, samples: Seq<Single>) -> bool {
        exists|t0: i64, drawn: Option<Vec<Single>>| #[trigger]
            call_ensures(self.synth, (AtomParams { t0, ..a },), drawn) && drawn is Some
                && drawn->0@ == samples
    }

    /// One removal to a selection: its atom's samples, from where it says it starts, out of a stretch
    /// that its onset is in.
    pub open spec fn is_removal(&self, s: Selection, x: Removal, len: int) -> bool {
        &&& self.draws(s.atom, x.atom)
        &&& x.t0 == s.atom.t0
        &&& 0 <= x.lo <= s.onset < x.hi <= len
    }

    /// A book accounts for what a residual lacks of a signal.
    pub open spec fn accounts_for(
        &self,
        signal: Seq<Single>,
        book: Seq<Selection>,
        xs: Seq<Removal>,
        residual: Seq<Single>,
    ) -> bool {
        &&& xs.len() == book.len()
        &&& forall|i: int|
            0 <= i < xs.len() ==> self.is_removal(book[i], #[trigger] xs[i], signal.len() as int)
        &&& residual == all_out(&self.scorer.reals, signal, xs)
    }

    /// What one turn makes of a residual and a book: nothing, or one atom out of the one and into the
    /// other.
    #[verifier::opaque]
    spec fn moves_one(&self, cfg: MpConfig, s: Stand, next: Stand, x: Removal) -> bool {
        let new = next.selections.last();
        let len = s.residual.len() as int;
        ||| next.selections == s.selections && next.residual == s.residual
        ||| {
            &&& next.selections == s.selections.push(new)
            &&& self.is_removal(new, x, len)
            &&& x.lo == 0 && x.hi == len
            &&& new.atom.t0 < len
            &&& plain(cfg) ==> new.atom.t0 == new.onset
            &&& next.residual == taken_out(&self.scorer.reals, s.residual, x)
        }
    }

    /// An unrefined candidate starts where its seed does.
    proof fn lemma_seed_start(
        &self,
        cfg: MpConfig,
        block: Block,
        residual: Seq<Single>,
        seed: Seed,
        cache: CacheState,
        left: CacheState,
        answer: Scored,
    )
        requires
            self.seed_found(cfg, block, residual, seed, cache, left, answer),
        ensures
            answer.outcome matches Some(c) ==> {
                &&& c.seed.onset == seed.onset
                &&& plain(cfg) ==> c.atom.t0 == seed.onset as i64
            },
    {
    }

    /// A candidate that is neither refined nor validated is an atom of its seed's block: it has the block's
    /// envelope, starts where the seed's frame does, and sounds at its bin's share of the sample rate.
    pub proof fn law_an_unrefined_atom_is_its_seeds(
        &self,
        cfg: MpConfig,
        block: Block,
        residual: Seq<Single>,
        seed: Seed,
        cache: CacheState,
        left: CacheState,
        answer: Scored,
    )
        requires
            plain(cfg),
            self.seed_found(cfg, block, residual, seed, cache, left, answer),
            answer.outcome is Some,
            seed.onset <= i64::MAX,
            rounds(&self.scorer.reals),
            block.env.sample_rate.finite(),
            0real < block.env.sample_rate.value(),
            1 <= answer.outcome->0.seed.bin,
            1 <= block.fft_len,
            tame(answer.outcome->0.seed.bin as real * block.env.sample_rate.value()),
            tame(
                answer.outcome->0.seed.bin as real * block.env.sample_rate.value()
                    / block.fft_len as real,
            ),
        ensures
            ({
                let c = answer.outcome->0;
                &&& (c.seed.block, c.seed.frame, c.seed.onset) == (seed.block, seed.frame, seed.onset)
                &&& c.atom.t0 == seed.onset
                &&& c.atom.env == block.env.params
                &&& !c.refined
                &&& c.atom.f.finite()
                &&& close(
                    c.atom.f.value(),
                    c.seed.bin as real * block.env.sample_rate.value() / block.fft_len as real,
                    9,
                )
            }),
    {
        law_a_bin_is_its_share_of_the_rate(&self.scorer.reals, block, answer.outcome->0.seed.bin);
    }

    /// An atom taken, with the one it leaves behind.
    proof fn lemma_taken_out(
        &self,
        cfg: MpConfig,
        s: Stand,
        best: Candidate,
        drawn: Option<Vec<Single>>,
        next: Stand,
        stop: bool,
    ) -> (x: Removal)
        requires
            drawn is Some,
            call_ensures(self.synth, (best.atom,), drawn),
            self.taken(cfg, s, best, drawn->0@, next, stop),
            best.seed.onset < s.residual.len() <= usize::MAX,
            plain(cfg) ==> best.atom.t0 == best.seed.onset,
        ensures
            self.moves_one(cfg, s, next, x),
    {
        reveal(Kit::moves_one);
        let atom = drawn->0@;
        let len = s.residual.len() as int;
        assert((drawn->0).len() == atom.len());
        let x = Removal { atom, t0: best.atom.t0 as int, lo: 0, hi: len };
        if overlap_of(len, atom.len() as int, best.atom.t0 as int) is Some {
            assert(best.atom == AtomParams { t0: best.atom.t0, ..best.atom });
            assert(self.draws(best.atom, atom));
            assert(next.selections.last().atom == best.atom);
            assert(next.selections.last().onset == best.seed.onset);
            assert(next.residual =~= taken_out(&self.scorer.reals, s.residual, x));
        }
        x
    }

    /// A decision changes nothing, or takes out the atom it settles on.
    proof fn lemma_decided_takes_out(
        &self,
        cfg: MpConfig,
        s: Stand,
        scored: Seq<Scored>,
        next: Stand,
        stop: bool,
    ) -> (x: Removal)
        requires
            self.decided(cfg, s, scored, next, stop),
            s.residual.len() <= usize::MAX,
            best_of(scored, scored.len() as int) matches Some(c) ==> {
                &&& c.seed.onset < s.residual.len()
                &&& plain(cfg) ==> c.atom.t0 == c.seed.onset
            },
        ensures
            self.moves_one(cfg, s, next, x),
    {
        let n = scored.len() as int;
        let nothing = Removal { atom: seq![], t0: 0, lo: 0, hi: s.residual.len() as int };
        let u = choose|u: Mp|
            {
                &&& #[trigger] demoted(s.tables, u, rejects(scored, n))
                &&& u.wf()
                &&& match best_of(scored, n) {
                    Some(c) => exists|drawn: Option<Vec<Single>>|
                        {
                            let t = Stand { tables: u, stalls: 0, ..s };
                            &&& #[trigger] call_ensures(self.synth, (c.atom,), drawn)
                            &&& match drawn {
                                Some(atom) => self.taken(cfg, t, c, atom@, next, stop),
                                None => stop && next == t,
                            }
                        },
                    None => if rejects(scored, n).len() == 0 {
                        stop && next == (Stand { tables: u, ..s })
                    } else {
                        &&& next == (Stand { tables: u, stalls: s.stalls + 1, ..s })
                        &&& stop == (s.stalls + 1 >= cfg.max_stalls)
                    },
                }
            };
        match best_of(scored, n) {
            None => {
                reveal(Kit::moves_one);
                nothing
            },
            Some(c) => {
                let t = Stand { tables: u, stalls: 0, ..s };
                let drawn = choose|drawn: Option<Vec<Single>>|
                    {
                        &&& #[trigger] call_ensures(self.synth, (c.atom,), drawn)
                        &&& match drawn {
                            Some(atom) => self.taken(cfg, t, c, atom@, next, stop),
                            None => stop && next == t,
                        }
                    };
                if drawn is Some {
                    let x = self.lemma_taken_out(cfg, t, c, drawn, next, stop);
                    assert(self.moves_one(cfg, s, next, x)) by {
                        reveal(Kit::moves_one);
                    }
                    x
                } else {
                    reveal(Kit::moves_one);
                    nothing
                }
            },
        }
    }

    /// A turn changes nothing, or takes out the atom it selects.
    proof fn lemma_turn_takes_out(
        &self,
        cfg: MpConfig,
        initial: Double,
        s: Stand,
        next: Stand,
        stop: bool,
    ) -> (x: Removal)
        requires
            s.tables.wf(),
            cfg.candidate_count >= 1,
            s.residual.len() == s.tables.len,
            s.residual.len() <= i64::MAX,
            self.turn(cfg, initial, s, next, stop),
        ensures
            next.tables.wf(),
            next.tables.len == s.tables.len,
            self.moves_one(cfg, s, next, x),
    {
        self.lemma_turn(cfg, initial, s, next, stop);
        let nothing = Removal { atom: seq![], t0: 0, lo: 0, hi: s.residual.len() as int };
        if self.over(cfg, initial, s) && stop && next == s {
            reveal(Kit::moves_one);
            nothing
        } else {
            let k = cfg.candidate_count as int;
            let passes = choose|passes: Seq<Mp>|
                {
                    &&& #[trigger] self.settled(passes, s.residual, k)
                    &&& passes[0] == s.tables
                    &&& self.searched(cfg, Stand { tables: passes.last(), ..s }, next, stop)
                };
            self.lemma_passes(passes, s.residual, k, passes.len() - 1);
            let t = passes.last();
            let seeds = selection(t.table_views(), k);
            let floor = self.scorer.reals.times_of(s.energies.core, cfg.min_gain_fraction);
            if seeds.len() == 0 || seeds[0].energy.at_most(floor) {
                reveal(Kit::moves_one);
                nothing
            } else {
                let (scored, caches) = choose|scored: Seq<Scored>, caches: Seq<CacheState>|
                    {
                        &&& #[trigger] self.all_scored(cfg, t, s.residual, seeds, scored, caches)
                        &&& caches[0] == s.cache
                        &&& self.decided(
                            cfg,
                            Stand { tables: t, cache: caches.last(), ..s },
                            scored,
                            next,
                            stop,
                        )
                    };
                let n = scored.len() as int;
                lemma_best_was_scored(scored, n);
                if let Some(c) = best_of(scored, n) {
                    let j = choose|j: int| 0 <= j < n && (#[trigger] scored[j]).outcome == Some(c);
                    let block = t.dict.blocks@[seeds[j].block as int];
                    assert(self.seed_found(
                        cfg,
                        block,
                        s.residual,
                        seeds[j],
                        caches[j],
                        caches[j + 1],
                        scored[j],
                    ));
                    self.lemma_seed_start(
                        cfg,
                        block,
                        s.residual,
                        seeds[j],
                        caches[j],
                        caches[j + 1],
                        scored[j],
                    );
                    lemma_seeds_in_tables(t, k);
                    assert(seeds[j].onset < t.len);
                }
                let at = Stand { tables: t, cache: caches.last(), ..s };
                let x = self.lemma_decided_takes_out(cfg, at, scored, next, stop);
                assert(self.moves_one(cfg, s, next, x)) by {
                    reveal(Kit::moves_one);
                }
                x
            }
        }
    }

    /// One more atom accounted for.
    proof fn lemma_accounts_for_one_more(
        &self,
        cfg: MpConfig,
        signal: Seq<Single>,
        s: Stand,
        next: Stand,
        before: Seq<Removal>,
        x: Removal,
    ) -> (xs: Seq<Removal>)
        requires
            self.moves_one(cfg, s, next, x),
            s.residual.len() == signal.len(),
            self.whole_account(cfg, signal, s.selections, before, s.residual),
        ensures
            next.residual.len() == signal.len(),
            self.whole_account(cfg, signal, next.selections, xs, next.residual),
    {
        reveal(Kit::moves_one);
        reveal(Kit::whole_account);
        if next.selections == s.selections && next.residual == s.residual {
            before
        } else {
            let xs = before.push(x);
            assert(xs.drop_last() =~= before);
            assert forall|j: int| 0 <= j < xs.len() implies self.is_removal(
                next.selections[j],
                #[trigger] xs[j],
                signal.len() as int,
            ) by {
                if j < before.len() {
                    assert(xs[j] == before[j]);
                }
            }
            xs
        }
    }

    /// As [`Kit::accounts_for`], of a stretch pursued as a whole.
    #[verifier::opaque]
    spec fn whole_account(
        &self,
        cfg: MpConfig,
        signal: Seq<Single>,
        book: Seq<Selection>,
        xs: Seq<Removal>,
        residual: Seq<Single>,
    ) -> bool {
        &&& self.accounts_for(signal, book, xs, residual)
        &&& forall|j: int|
            0 <= j < xs.len() ==> (#[trigger] xs[j]).lo == 0 && xs[j].hi == signal.len()
        &&& forall|j: int|
            0 <= j < book.len() ==> (#[trigger] book[j]).atom.t0 < signal.len() && (plain(cfg)
                ==> book[j].atom.t0 == book[j].onset)
    }

    /// What a pursuit has taken out, so far.
    proof fn lemma_run_takes_out(
        &self,
        cfg: MpConfig,
        initial: Double,
        trace: Seq<Stand>,
        i: int,
    ) -> (xs: Seq<Removal>)
        requires
            self.is_run(cfg, initial, trace),
            cfg.candidate_count >= 1,
            trace[0].tables.wf(),
            trace[0].selections.len() == 0,
            trace[0].residual.len() == trace[0].tables.len,
            trace[0].residual.len() <= i64::MAX,
            0 <= i < trace.len(),
        ensures
            trace[i].tables.wf(),
            trace[i].tables.len == trace[0].tables.len,
            trace[i].residual.len() == trace[0].residual.len(),
            self.whole_account(cfg, trace[0].residual, trace[i].selections, xs, trace[i].residual),
        decreases i,
    {
        let signal = trace[0].residual;
        if i == 0 {
            reveal(Kit::whole_account);
            let xs = Seq::<Removal>::empty();
            assert(all_out(&self.scorer.reals, signal, xs) == signal);
            xs
        } else {
            let before = self.lemma_run_takes_out(cfg, initial, trace, i - 1);
            let stop = i - 1 == trace.len() - 2;
            assert(self.turn(cfg, initial, trace[i - 1], trace[i - 1 + 1], stop));
            let x = self.lemma_turn_takes_out(cfg, initial, trace[i - 1], trace[i], stop);
            self.lemma_accounts_for_one_more(cfg, signal, trace[i - 1], trace[i], before, x)
        }
    }

    /// What a decomposed stretch had taken out of it.
    proof fn lemma_stretch_accounts(
        &self,
        dict: &Dictionary,
        cfg: MpConfig,
        signal: Seq<Single>,
        core_len: int,
        trace: Seq<Stand>,
    ) -> (xs: Seq<Removal>)
        requires
            self.decomposed(dict, cfg, signal, core_len, trace),
            cfg.candidate_count >= 1,
            signal.len() <= i64::MAX,
        ensures
            trace.last().residual.len() == signal.len(),
            self.whole_account(cfg, signal, trace.last().selections, xs, trace.last().residual),
    {
        reveal(Kit::decomposed);
        self.lemma_run_takes_out(cfg, trace[0].energies.core, trace, trace.len() - 1)
    }

    /// As [`Kit::accounts_for`], with unrefined atoms starting at their onsets.
    #[verifier::opaque]
    spec fn account(
        &self,
        cfg: MpConfig,
        signal: Seq<Single>,
        book: Seq<Selection>,
        xs: Seq<Removal>,
        residual: Seq<Single>,
    ) -> bool {
        &&& residual.len() == signal.len()
        &&& self.accounts_for(signal, book, xs, residual)
        &&& plain(cfg) ==> forall|j: int|
            0 <= j < book.len() ==> (#[trigger] book[j]).atom.t0 == book[j].onset
    }

    /// A drawing of an atom is one of it placed elsewhere.
    proof fn lemma_drawn_anywhere(&self, a: AtomParams, b: AtomParams, samples: Seq<Single>)
        requires
            self.draws(a, samples),
            b == (AtomParams { t0: b.t0, ..a }),
        ensures
            self.draws(b, samples),
    {
        let (t0, drawn) = choose|t0: i64, drawn: Option<Vec<Single>>| #[trigger]
            call_ensures(self.synth, (AtomParams { t0, ..a },), drawn) && drawn is Some && drawn->0@
                == samples;
        assert(AtomParams { t0, ..b } == AtomParams { t0, ..a });
    }

    /// A window's atoms, added to the account in the signal's own time.
    proof fn lemma_window_accounts<K: Fn() -> u64>(
        &self,
        dict: &Dictionary,
        signal: Seq<Single>,
        cfg: MpConfig,
        clock: &K,
        w: Window,
        s: Leg,
        next: Leg,
        before: Seq<Removal>,
    ) -> (xs: Seq<Removal>)
        requires
            self.one_window(dict, cfg, clock, w, s, next),
            cfg.candidate_count >= 1,
            signal.len() <= i64::MAX,
            signal.len() <= usize::MAX,
            w.offset <= w.end <= signal.len(),
            self.account(cfg, signal, s.selections, before, s.residual),
        ensures
            self.account(cfg, signal, next.selections, xs, next.residual),
    {
        reveal(Kit::account);
        reveal(Kit::whole_account);
        let r = &self.scorer.reals;
        let (offset, end, total) = (w.offset as int, w.end as int, signal.len() as int);
        let part = s.residual.subrange(offset, end);
        let trace = choose|trace: Seq<Stand>|
            {
                let sel = trace.last().selections;
                &&& #[trigger] self.decomposed(dict, capped(cfg, w.max_atoms), part, w.core as int, trace)
                &&& next.residual == s.residual.subrange(0, offset) + trace.last().residual
                    + s.residual.subrange(end, s.residual.len() as int)
                &&& next.selections == s.selections + Seq::new(
                    sel.len(),
                    |i: int|
                        placed(
                            sel[i],
                            w.offset as int,
                            left_after(r, s.running, sel, i + 1),
                        ),
                )
            };
        let mine = self.lemma_stretch_accounts(
            dict,
            capped(cfg, w.max_atoms),
            part,
            w.core as int,
            trace,
        );
        let sel = trace.last().selections;
        let new = Seq::new(mine.len(), |i: int| moved(mine[i], offset));
        let (pre, post) = (s.residual.subrange(0, offset), s.residual.subrange(end, total));
        assert(pre + part + post =~= s.residual);
        lemma_out_of_a_stretch(r, pre, part, post, mine);
        lemma_out_in_turn(r, signal, before, new);
        let xs = before + new;
        assert forall|i: int| 0 <= i < xs.len() implies self.is_removal(
            next.selections[i],
            #[trigger] xs[i],
            total,
        ) by {
            if i < before.len() {
                assert(xs[i] == before[i]);
            } else {
                let j = i - before.len();
                let x = mine[j];
                assert(self.is_removal(sel[j], x, part.len() as int));
                let there = next.selections[i];
                assert(sel[j].atom.t0 < part.len());
                assert(there.atom.t0 == sel[j].atom.t0 + offset);
                self.lemma_drawn_anywhere(sel[j].atom, there.atom, x.atom);
                assert(there.onset == sel[j].onset + offset);
            }
        }
        if plain(cfg) {
            assert forall|j: int| 0 <= j < next.selections.len() implies (
            #[trigger] next.selections[j]).atom.t0 == next.selections[j].onset by {
                if j >= before.len() {
                    let k = j - before.len();
                    assert(sel[k].atom.t0 == sel[k].onset);
                    assert(self.is_removal(sel[k], mine[k], part.len() as int));
                }
            }
        }
        xs
    }

    proof fn lemma_windows_account<K: Fn() -> u64>(
        &self,
        dict: &Dictionary,
        signal: Seq<Single>,
        cfg: MpConfig,
        plan: WindowPlan,
        clock: &K,
        legs: Seq<Leg>,
        i: int,
    ) -> (xs: Seq<Removal>)
        requires
            self.is_windowed(dict, cfg, plan, clock, signal.len() as int, legs),
            legs[0].residual == signal,
            legs[0].selections.len() == 0,
            cfg.candidate_count >= 1,
            plan.core_len >= 1,
            signal.len() <= i64::MAX,
            signal.len() <= usize::MAX,
            0 <= i < legs.len(),
        ensures
            self.account(cfg, signal, legs[i].selections, xs, legs[i].residual),
        decreases i,
    {
        let total = signal.len() as int;
        if i == 0 {
            reveal(Kit::account);
            let xs = Seq::<Removal>::empty();
            assert(all_out(&self.scorer.reals, signal, xs) == signal);
            xs
        } else {
            let before = self.lemma_windows_account(dict, signal, cfg, plan, clock, legs, i - 1);
            let w = window_of(plan, total, cfg.max_atoms as int, i - 1);
            assert(self.one_window(dict, cfg, clock, w, legs[i - 1], legs[i - 1 + 1]));
            lemma_window_within(plan, total, cfg.max_atoms as int, i - 1);
            self.lemma_window_accounts(dict, signal, cfg, clock, w, legs[i - 1], legs[i], before)
        }
    }

    /// The book accounts for the sound: what a run leaves of a signal is the signal with each of the
    /// book's atoms, in order, subtracted sample from sample where the atom says it starts, in the
    /// signal's own time and within the window its onset is in. An unrefined atom starts at its onset.
    pub proof fn law_the_book_accounts_for_the_sound<K: Fn() -> u64>(
        &self,
        dict: &Dictionary,
        signal: Seq<Single>,
        cfg: MpConfig,
        plan: WindowPlan,
        clock: &K,
        run: WindowedRun,
        told: Seq<Said>,
    ) -> (xs: Seq<Removal>)
        requires
            self.is_windowed_run(dict, signal, cfg, plan, clock, run, told),
            cfg.candidate_count >= 1,
            plan.core_len >= 1,
            signal.len() <= i64::MAX,
            signal.len() <= usize::MAX,
        ensures
            self.accounts_for(signal, run.selections@, xs, run.residual@),
            plain(cfg) ==> forall|j: int|
                0 <= j < run.selections@.len() ==> (#[trigger] run.selections@[j]).atom.t0
                    == run.selections@[j].onset,
    {
        let total = signal.len() as int;
        if plan.count <= 1 {
            let trace = choose|trace: Seq<Stand>|
                {
                    &&& #[trigger] self.decomposed(dict, cfg, signal, total, trace)
                    &&& trace.last().selections == run.selections@
                    &&& trace.last().residual == run.residual@
                };
            let xs = self.lemma_stretch_accounts(dict, cfg, signal, total, trace);
            reveal(Kit::whole_account);
            xs
        } else {
            let legs = choose|legs: Seq<Leg>|
                {
                    &&& #[trigger] self.is_windowed(dict, cfg, plan, clock, total, legs)
                    &&& legs[0].residual == signal
                    &&& legs[0].selections.len() == 0
                    &&& legs.last() == run.leg(legs.last().running)
                };
            let xs = self.lemma_windows_account(
                dict,
                signal,
                cfg,
                plan,
                clock,
                legs,
                legs.len() - 1,
            );
            reveal(Kit::account);
            xs
        }
    }
}

/// Taking atoms out of a stretch, and putting it back, takes them out of the whole.
proof fn lemma_out_of_a_stretch<R: Reals>(
    r: &R,
    pre: Seq<Single>,
    part: Seq<Single>,
    post: Seq<Single>,
    xs: Seq<Removal>,
)
    requires
        forall|j: int| 0 <= j < xs.len() ==> (#[trigger] xs[j]).lo == 0 && xs[j].hi == part.len(),
    ensures
        all_out(r, part, xs).len() == part.len(),
        pre + all_out(r, part, xs) + post == all_out(
            r,
            pre + part + post,
            Seq::new(xs.len(), |i: int| moved(xs[i], pre.len() as int)),
        ),
    decreases xs.len(),
{
    let n = pre.len() as int;
    let new = Seq::new(xs.len(), |i: int| moved(xs[i], n));
    if xs.len() > 0 {
        let head = xs.drop_last();
        assert forall|j: int| 0 <= j < head.len() implies (#[trigger] head[j]).lo == 0 && head[j].hi
            == part.len() by {
            assert(head[j] == xs[j]);
        }
        lemma_out_of_a_stretch(r, pre, part, post, head);
        assert(new.drop_last() =~= Seq::new(head.len(), |i: int| moved(head[i], n)));
        let x = xs.last();
        assert(x.lo == 0 && x.hi == part.len()) by {
            assert(xs[xs.len() - 1] == x);
        }
        let inner = all_out(r, part, head);
        assert(pre + taken_out(r, inner, x) + post =~= taken_out(r, pre + inner + post, moved(x, n)));
    }
}

/// One lot of atoms out after another.
proof fn lemma_out_in_turn<R: Reals>(r: &R, signal: Seq<Single>, a: Seq<Removal>, b: Seq<Removal>)
    ensures
        all_out(r, signal, a + b) == all_out(r, all_out(r, signal, a), b),
    decreases b.len(),
{
    if b.len() == 0 {
        assert(a + b =~= a);
    } else {
        lemma_out_in_turn(r, signal, a, b.drop_last());
        assert((a + b).drop_last() =~= a + b.drop_last());
    }
}

/// A window lies within its signal.
proof fn lemma_window_within(plan: WindowPlan, total: int, max_atoms: int, w: int)
    requires
        0 <= w < windows_for(total, plan.core_len as int),
        plan.core_len >= 1,
        total <= usize::MAX,
    ensures
        window_of(plan, total, max_atoms, w).offset <= window_of(plan, total, max_atoms, w).end
            <= total,
{
    let core = plan.core_len as int;
    assert(0 <= w * core <= total - 1) by (nonlinear_arith)
        requires
            0 <= w <= (total - 1) / core,
            core >= 1,
            total >= 1,
    ;
}

} // verus!
