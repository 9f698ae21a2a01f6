//! The lazy update finds what recomputing everything finds.
//!
//! A bound is never below the energy it stands for, so once every frame at or above the weakest seed
//! is exact, nothing dirty can outrank or shadow a seed. Two pursuits of one signal, one that bounds
//! the frames an atom touched and one that recomputes every frame of every block, select the same
//! atoms.

use crate::arith::{Gram, Params, Rendered};
use crate::atom::{AtomParams, Shape};
use crate::cache::CacheState;
use crate::cand::{
    all_maxima, before, distinct_blocks, indexable, is_max, keep, law_selection, peak, ranked, seed_at,
    selection, Candidate, FrameView, Seed,
};
use crate::corr::{is_best, is_best_bin, windowed, Projection};
use crate::dict::{frames, transformed, Bin, Block, Dictionary};
use crate::ieee::{Double, Single, ZERO};
use crate::mp::{
    block_sound, chunks_of, dirty_list, eager_views, frame_sound, law_lazy_seeds_are_the_eager_ones,
    lemma_seeds_in_tables, overlaps, sound, stale_first, total_stale, BlockState, Mp,
};
use crate::pipeline::Said;
use crate::pursue::{pending_total, without, Kit, Stand};
use crate::pursuit::{
    best_of, demoted, prepared, rejects, seed_scored, validated, MpConfig, Scored, Verdict,
};
use crate::reals::Reals;
use crate::refresh::frame_scanned;
use crate::subtract::{law_the_overlap_is_what_is_shared, overlap_of, Energies, Overlap};
use crate::window::{WindowPlan, WindowedRun};
use vstd::prelude::*;

verus! {

/// Candidates are neither refined nor validated.
pub open spec fn plain(cfg: MpConfig) -> bool {
    !cfg.refine.enabled && !cfg.hrmp
}

/// Two configurations of one pursuit: they differ in how the tables are brought up with an atom, and,
/// where candidates are taken as they are seeded, in how many are promoted.
pub open spec fn variants(a: MpConfig, b: MpConfig) -> bool {
    &&& a == (MpConfig {
        candidate_count: a.candidate_count,
        full_update: a.full_update,
        ..b
    })
    &&& a.candidate_count >= 1
    &&& b.candidate_count >= 1
    &&& a.candidate_count == b.candidate_count || plain(a)
}

/// Two drawings are of the same samples.
pub open spec fn drawn_alike(a: Option<Vec<Single>>, b: Option<Vec<Single>>) -> bool {
    match (a, b) {
        (Some(x), Some(y)) => x@ == y@,
        (None, None) => true,
        _ => false,
    }
}

/// A frame's bin and energy of which something holds, if any.
pub open spec fn that_holds(p: spec_fn((u32, Double)) -> bool) -> (u32, Double) {
    choose|out: (u32, Double)| #[trigger] p(out)
}

/// A frame's best bin is one bin.
proof fn lemma_best_bin_is_one<R: Reals>(
    r: &R,
    block: Block,
    spectrum: Seq<Bin>,
    a: (usize, Projection),
    b: (usize, Projection),
)
    requires
        is_best_bin(r, block, spectrum, a),
        is_best_bin(r, block, spectrum, b),
    ensures
        a == b,
{
    let energies = crate::corr::bin_energies(r, block, spectrum);
    let lo = block.k_lo as int;
    if !is_best(lo, energies, None) {
        let (i, j) = (a.0 - lo, b.0 - lo);
        assert(!energies[i].less(energies[j]));
        assert(!energies[j].less(energies[i]));
        assert(energies[i].positive() && energies[j].positive());
        if i < j {
            assert(energies[i].less(energies[j]) || energies[i].nan());
        }
        if j < i {
            assert(energies[j].less(energies[i]) || energies[j].nan());
        }
        assert(a.0 == b.0);
    }
}

/// Everything two pursuits have in common but their tables.
pub open spec fn agree(a: Stand, b: Stand) -> bool {
    &&& a.residual == b.residual
    &&& a.energies == b.energies
    &&& a.cache == b.cache
    &&& a.selections == b.selections
    &&& a.stalls == b.stalls
}

/// Two sets of tables over the same blocks and the same samples.
pub open spec fn same_ground(a: Mp, b: Mp) -> bool {
    &&& a.dict == b.dict
    &&& a.len == b.len
    &&& a.core_len == b.core_len
}

impl<R, E, G, M, U, T, J, S, N, C> Kit<R, E, G, M, U, T, J, S, N, C> where
    R: Reals + Sync,
    E: Fn(Shape) -> Option<Rendered> + Sync,
    G: Fn(&[Single], Params, &Rendered, Option<Gram>) -> Double + Sync,
    M: Fn(&Rendered, Single) -> Gram + Sync,
    U: Fn(&[Single], Params, &Rendered) -> Option<Projection> + Sync,
    T: Fn(Vec<Single>) -> Vec<Bin> + Sync,
    J: Fn(&[Single], Candidate) -> Option<Verdict>,
    S: Fn(AtomParams) -> Option<Vec<Single>>,
    N: Fn(Double, Double) -> Single,
    C: Fn() -> bool,
{
    /// Asked the same thing, the machine answers the same way, and the host keeps its mind.
    pub open spec fn answers_alike(&self) -> bool {
        &&& forall|x: Seq<Single>, a: Seq<Bin>, b: Seq<Bin>| #[trigger]
            transformed(self.transform, x, a) && #[trigger] transformed(self.transform, x, b) ==> a == b
        &&& forall|v: &[Single], c: Candidate, a: Option<Verdict>, b: Option<Verdict>| #[trigger]
            call_ensures(self.judge, (v, c), a) && #[trigger] call_ensures(self.judge, (v, c), b)
                ==> a == b
        &&& forall|p: AtomParams, a: Option<Vec<Single>>, b: Option<Vec<Single>>| #[trigger]
            call_ensures(self.synth, (p,), a) && #[trigger] call_ensures(self.synth, (p,), b)
                ==> drawn_alike(a, b)
        &&& forall|x: Double, y: Double, a: Single, b: Single| #[trigger]
            call_ensures(self.snr, (x, y), a) && #[trigger] call_ensures(self.snr, (x, y), b) ==> a
                == b
        &&& !(call_ensures(self.cancel, (), true) && call_ensures(self.cancel, (), false))
    }

    /// What scanning a frame of a block gives.
    pub open spec fn scan_of(&self, block: Block, residual: Seq<Single>, n: int) -> (u32, Double) {
        that_holds(
            |out: (u32, Double)|
                frame_scanned(
                    &self.scorer.reals,
                    block,
                    residual,
                    &self.transform,
                    n as usize,
                    out,
                ),
        )
    }

    /// What scanning every frame of every block gives.
    pub open spec fn scans_of(&self, dict: &Dictionary, residual: Seq<Single>) -> Seq<
        Seq<(u32, Double)>,
    > {
        Seq::new(
            dict.blocks@.len(),
            |b: int|
                Seq::new(
                    frames(dict.blocks@[b].hop as int, residual.len() as int) as nat,
                    |n: int| self.scan_of(dict.blocks@[b], residual, n),
                ),
        )
    }

    /// No bound the tables hold is below what scanning its frame gives.
    pub open spec fn bounds_hold_in(&self, mp: Mp, residual: Seq<Single>) -> bool {
        forall|b: int, n: int|
            0 <= b < mp.states@.len() && 0 <= n < mp.frames_of(b)
                && #[trigger] mp.states@[b].dirty@[n] ==> {
                let scanned = self.scan_of(mp.dict.blocks@[b], residual, n).1;
                let bound = mp.states@[b].energy@[n];
                &&& !bound.nan()
                &&& scanned.finite() ==> scanned.at_most(bound)
            }
    }

    /// A pursuit never undercuts: after no turn of it is a bound below what its frame then scans as.
    /// Whether one is rests on rounding alone. One that recomputes every frame holds no bounds.
    pub open spec fn never_undercuts(&self, run: Seq<Stand>) -> bool {
        forall|i: int|
            0 <= i < run.len() - 1 ==> self.bounds_hold_in(
                (#[trigger] run[i]).tables,
                run[i].residual,
            )
    }

    /// Nothing a seed is scored as is rejected.
    pub open spec fn rejects_nothing(&self, cfg: MpConfig) -> bool {
        forall|
            block: Block,
            residual: Seq<Single>,
            seed: Seed,
            cache: CacheState,
            left: CacheState,
            answer: Scored,
        |
            #[trigger] self.seed_found(cfg, block, residual, seed, cache, left, answer)
                ==> !answer.rejected()
    }

    /// Two pursuits stand at the same place, over tables each sound for the residual.
    pub open spec fn twins(&self, a: Stand, b: Stand) -> bool {
        &&& agree(a, b)
        &&& same_ground(a.tables, b.tables)
        &&& a.tables.wf()
        &&& b.tables.wf()
        &&& a.tables.len == a.residual.len()
        &&& sound(a.tables, self.scans_of(a.tables.dict, a.residual))
        &&& sound(b.tables, self.scans_of(b.tables.dict, b.residual))
    }

    proof fn lemma_scan_is_one(&self, block: Block, residual: Seq<Single>, n: int, out: (u32, Double))
        requires
            self.answers_alike(),
            frame_scanned(&self.scorer.reals, block, residual, &self.transform, n as usize, out),
        ensures
            out == self.scan_of(block, residual, n),
    {
        let r = &self.scorer.reals;
        let other = self.scan_of(block, residual, n);
        let p = |out: (u32, Double)|
            frame_scanned(r, block, residual, &self.transform, n as usize, out);
        assert(p(out));
        assert(p(other));
        assert(frame_scanned(r, block, residual, &self.transform, n as usize, other));
        let x = windowed(
            r,
            residual,
            block.env.samples@,
            n as usize * block.hop,
            block.fft_len as int,
        );
        let (sa, ka, pa) = choose|s: Seq<Bin>, k: usize, p: Projection|
            {
                &&& #[trigger] transformed(self.transform, x, s)
                &&& #[trigger] is_best_bin(r, block, s, (k, p))
                &&& out == (k as u32, p.energy)
            };
        let (sb, kb, pb) = choose|s: Seq<Bin>, k: usize, p: Projection|
            {
                &&& #[trigger] transformed(self.transform, x, s)
                &&& #[trigger] is_best_bin(r, block, s, (k, p))
                &&& other == (k as u32, p.energy)
            };
        assert(sa == sb);
        lemma_best_bin_is_one(r, block, sa, (ka, pa), (kb, pb));
    }

    /// A frame that does not read an atom scans as it did.
    proof fn lemma_unread(
        &self,
        block: Block,
        residual: Seq<Single>,
        atom: Seq<Single>,
        o: Overlap,
        n: int,
    )
        requires
            block.support() <= block.fft_len,
            0 <= n <= usize::MAX,
            0 <= n * block.hop,
            o.tau + o.len <= residual.len(),
            !overlaps(block.hop as int, block.support(), n, o.tau as int, o.len as int),
        ensures
            self.scan_of(block, without(&self.scorer.reals, residual, atom, o), n) == self.scan_of(
                block,
                residual,
                n,
            ),
    {
        let r = &self.scorer.reals;
        let changed = without(r, residual, atom, o);
        let (start, len) = (n as usize * block.hop, block.fft_len as int);
        let env = block.env.samples@;
        assert(windowed(r, changed, env, start, len) =~= windowed(r, residual, env, start, len)) by {
            assert forall|t: int| start <= t < start + env.len() && t < residual.len() implies
                #[trigger] changed[t] == residual[t] by {
                assert(!(o.tau <= t < o.tau + o.len));
            }
        }
        let p = |out: (u32, Double)|
            frame_scanned(r, block, changed, &self.transform, n as usize, out);
        let q = |out: (u32, Double)|
            frame_scanned(r, block, residual, &self.transform, n as usize, out);
        assert(p =~= q);
    }

    /// Recomputing the frames pending keeps tables sound.
    proof fn lemma_resolved_is_sound(&self, before: Mp, after: Mp, residual: Seq<Single>, k: int)
        requires
            self.answers_alike(),
            before.wf(),
            residual.len() == before.len,
            sound(before, self.scans_of(before.dict, residual)),
            self.resolved_once(before, after, residual, k),
        ensures
            sound(after, self.scans_of(after.dict, residual)),
    {
        let exact = self.scans_of(before.dict, residual);
        assert forall|b: int| 0 <= b < exact.len() implies block_sound(
            #[trigger] after.states@[b],
            exact[b],
        ) by {
            assert(block_sound(before.states@[b], exact[b]));
            assert(after.states@[b].wf(
                after.frames_of(b),
                after.dict.blocks@[b].env.samples@,
            ));
            assert forall|n: int| 0 <= n < exact[b].len() implies #[trigger] frame_sound(
                after.states@[b],
                exact[b],
                n,
            ) by {
                assert(frame_sound(before.states@[b], exact[b], n));
                assert(self.frame_resolved(before, after, residual, k, b, n));
                let y = after.states@[b];
                if before.pending(b, k).contains(n as usize) {
                    let out = (y.bin@[n], y.energy@[n]);
                    self.lemma_scan_is_one(before.dict.blocks@[b], residual, n, out);
                }
            }
        }
    }

    /// Settling keeps tables sound, pass by pass.
    proof fn lemma_settled_is_sound(&self, passes: Seq<Mp>, residual: Seq<Single>, k: int, i: int)
        requires
            self.answers_alike(),
            self.settled(passes, residual, k),
            passes[0].wf(),
            residual.len() == passes[0].len,
            sound(passes[0], self.scans_of(passes[0].dict, residual)),
            0 <= i < passes.len(),
        ensures
            passes[i].wf(),
            same_ground(passes[i], passes[0]),
            sound(passes[i], self.scans_of(passes[i].dict, residual)),
        decreases i,
    {
        if i > 0 {
            self.lemma_settled_is_sound(passes, residual, k, i - 1);
            assert(self.resolved_once(passes[i - 1], passes[i - 1 + 1], residual, k));
            self.lemma_resolved_is_sound(passes[i - 1], passes[i], residual, k);
        }
    }

    /// Tables whose every frame was just computed are sound.
    proof fn lemma_all_exact_is_sound(&self, mp: Mp, residual: Seq<Single>)
        requires
            self.answers_alike(),
            mp.wf(),
            residual.len() == mp.len,
            self.all_exact(mp, residual),
        ensures
            sound(mp, self.scans_of(mp.dict, residual)),
    {
        let exact = self.scans_of(mp.dict, residual);
        assert forall|b: int| 0 <= b < exact.len() implies block_sound(
            #[trigger] mp.states@[b],
            exact[b],
        ) by {
            let st = mp.states@[b];
            assert(st.wf(mp.frames_of(b), mp.dict.blocks@[b].env.samples@));
            assert forall|n: int| 0 <= n < exact[b].len() implies #[trigger] frame_sound(
                st,
                exact[b],
                n,
            ) by {
                assert(!st.dirty@[n]);
                self.lemma_scan_is_one(
                    mp.dict.blocks@[b],
                    residual,
                    n,
                    (st.bin@[n], st.energy@[n]),
                );
            }
        }
    }

    /// Rejecting nothing leaves tables as sound as they were.
    proof fn lemma_nothing_demoted(&self, before: Mp, after: Mp, exact: Seq<Seq<(u32, Double)>>)
        requires
            before.wf(),
            after.wf(),
            sound(before, exact),
            demoted(before, after, Seq::<(usize, usize)>::empty()),
        ensures
            sound(after, exact),
    {
        assert forall|b: int| 0 <= b < exact.len() implies block_sound(
            #[trigger] after.states@[b],
            exact[b],
        ) by {
            assert(block_sound(before.states@[b], exact[b]));
            assert forall|n: int| 0 <= n < exact[b].len() implies #[trigger] frame_sound(
                after.states@[b],
                exact[b],
                n,
            ) by {
                assert(frame_sound(before.states@[b], exact[b], n));
                assert(after.states@[b].energy@[n] == before.states@[b].energy@[n]);
                assert(after.states@[b].dirty@[n] == before.states@[b].dirty@[n]);
            }
        }
    }

    /// Bounding the frames an atom touches keeps tables sound.
    proof fn lemma_brought_up_is_sound(
        &self,
        before: Mp,
        after: Mp,
        residual: Seq<Single>,
        atom: Seq<Single>,
        o: Overlap,
    )
        requires
            before.wf(),
            after.same_shape(before),
            after.wf(),
            self.bounds_hold_in(after, without(&self.scorer.reals, residual, atom, o)),
            residual.len() == before.len,
            forall|b: int|
                0 <= b < before.dict.blocks@.len() ==> (#[trigger] before.dict.blocks@[b]).support()
                    <= before.dict.blocks@[b].fft_len,
            sound(before, self.scans_of(before.dict, residual)),
            o.len > 0,
            o.skip + o.len <= atom.len(),
            o.tau + o.len <= residual.len(),
            self.brought_up(before, after, o, atom.subrange(o.skip as int, o.skip + o.len)),
        ensures
            sound(after, self.scans_of(after.dict, without(&self.scorer.reals, residual, atom, o))),
    {
        let r = &self.scorer.reals;
        let landed = atom.subrange(o.skip as int, o.skip + o.len);
        let changed_residual = without(r, residual, atom, o);
        let exact = self.scans_of(before.dict, residual);
        let changed = self.scans_of(before.dict, changed_residual);
        let (tau, len) = (o.tau as int, o.len as int);
        assert forall|b: int| 0 <= b < changed.len() implies block_sound(
            #[trigger] after.states@[b],
            changed[b],
        ) by {
            let block = before.dict.blocks@[b];
            let (hop, support) = (block.hop as int, block.support());
            let (st, own) = (before.states@[b], before.bounds_for(r, b, tau, landed));
            assert(block.wf() && support >= 1);
            assert(st.wf(before.frames_of(b), block.env.samples@));
            assert(st.energy.len() == st.energy@.len());
            assert(before.bounded(b, after.states@[b], tau, len, own));
            assert(block_sound(st, exact[b]));
            assert(changed[b].len() == exact[b].len());
            assert(o.len > 0 && len > 0);
            assert forall|n: int| 0 <= n < changed[b].len() implies #[trigger] frame_sound(
                after.states@[b],
                changed[b],
                n,
            ) by {
                assert(n * hop >= 0) by (nonlinear_arith)
                    requires
                        n >= 0,
                        hop >= 1,
                ;
                assert(frame_sound(st, exact[b], n));
                if !after.states@[b].dirty@[n] {
                    if overlaps(hop, support, n, tau, len) {
                        assert(after.states@[b].energy@[n] == own[n - stale_first(
                            hop,
                            support,
                            tau,
                        )]);
                    }
                    self.lemma_unread(block, residual, atom, o, n);
                }
            }
        }
    }

    /// A seed is scored one way.
    proof fn lemma_found_is_one(
        &self,
        cfg: MpConfig,
        other: MpConfig,
        block: Block,
        residual: Seq<Single>,
        seed: Seed,
        cache: CacheState,
        a: (CacheState, Scored),
        b: (CacheState, Scored),
    )
        requires
            self.answers_alike(),
            variants(cfg, other),
            self.seed_found(cfg, block, residual, seed, cache, a.0, a.1),
            self.seed_found(other, block, residual, seed, cache, b.0, b.1),
        ensures
            a == b,
    {
        let r = &self.scorer.reals;
        let x = windowed(
            r,
            residual,
            block.env.samples@,
            seed.onset as int,
            block.fft_len as int,
        );
        let (va, sa, fa) = choose|view: &[Single], s: Seq<Bin>, f: (usize, Projection)|
            {
                &&& view@ == residual
                &&& #[trigger] transformed(self.transform, x, s)
                &&& #[trigger] is_best_bin(r, block, s, f)
                &&& #[trigger] seed_scored(
                    r,
                    block,
                    view,
                    seed,
                    f,
                    cfg,
                    &self.scorer.search_of(view, block, block.env.params, cfg.refine),
                    &self.judge,
                    cache,
                    a.0,
                    a.1,
                )
            };
        let (vb, sb, fb) = choose|view: &[Single], s: Seq<Bin>, f: (usize, Projection)|
            {
                &&& view@ == residual
                &&& #[trigger] transformed(self.transform, x, s)
                &&& #[trigger] is_best_bin(r, block, s, f)
                &&& #[trigger] seed_scored(
                    r,
                    block,
                    view,
                    seed,
                    f,
                    other,
                    &self.scorer.search_of(view, block, block.env.params, other.refine),
                    &self.judge,
                    cache,
                    b.0,
                    b.1,
                )
            };
        assert(va =~= vb);
        assert(sa == sb);
        lemma_best_bin_is_one(r, block, sa, fa, fb);
        let (k, p) = fa;
        if !p.energy.at_most(Double { bits: ZERO }) {
            let ar = &self.scorer.search_of(va, block, block.env.params, cfg.refine);
            let start = Candidate::seeded(r, Seed { bin: k, ..seed }, block, p.amp, p.phi, p.energy);
            let hop = block.hop as int;
            let ca = choose|c: Candidate|
                {
                    &&& #[trigger] prepared(ar, cfg, hop, start, cache, c, a.0)
                    &&& validated(&self.judge, va, cfg.hrmp, c, a.1.outcome)
                };
            let cb = choose|c: Candidate|
                {
                    &&& #[trigger] prepared(ar, other, hop, start, cache, c, b.0)
                    &&& validated(&self.judge, vb, other.hrmp, c, b.1.outcome)
                };
            assert(ca == cb && a.0 == b.0);
        }
    }

    /// A list of seeds is scored one way.
    proof fn lemma_scored_is_one(
        &self,
        cfg: MpConfig,
        other: MpConfig,
        a: Mp,
        b: Mp,
        residual: Seq<Single>,
        seeds: Seq<Seed>,
        scored_a: Seq<Scored>,
        caches_a: Seq<CacheState>,
        scored_b: Seq<Scored>,
        caches_b: Seq<CacheState>,
        n: int,
    )
        requires
            self.answers_alike(),
            a.dict == b.dict,
            self.all_scored(cfg, a, residual, seeds, scored_a, caches_a),
            variants(cfg, other),
            self.all_scored(other, b, residual, seeds, scored_b, caches_b),
            caches_a[0] == caches_b[0],
            0 <= n <= seeds.len(),
        ensures
            caches_a[n] == caches_b[n],
            forall|i: int| 0 <= i < n ==> scored_a[i] == #[trigger] scored_b[i],
        decreases n,
    {
        if n > 0 {
            self.lemma_scored_is_one(
                cfg,
                other,
                a,
                b,
                residual,
                seeds,
                scored_a,
                caches_a,
                scored_b,
                caches_b,
                n - 1,
            );
            let block = a.dict.blocks@[seeds[n - 1].block as int];
            let (x, y) = (scored_a[n - 1], scored_b[n - 1]);
            self.lemma_found_is_one(
                cfg,
                other,
                block,
                residual,
                seeds[n - 1],
                caches_a[n - 1],
                (caches_a[n], x),
                (caches_b[n], y),
            );
        }
    }

    /// With nothing rejected there is nothing to demote.
    proof fn lemma_no_rejects(
        &self,
        cfg: MpConfig,
        mp: Mp,
        residual: Seq<Single>,
        seeds: Seq<Seed>,
        scored: Seq<Scored>,
        caches: Seq<CacheState>,
        n: int,
    )
        requires
            self.rejects_nothing(cfg),
            self.all_scored(cfg, mp, residual, seeds, scored, caches),
            0 <= n <= seeds.len(),
        ensures
            rejects(scored, n) == Seq::<(usize, usize)>::empty(),
        decreases n,
    {
        if n > 0 {
            self.lemma_no_rejects(cfg, mp, residual, seeds, scored, caches, n - 1);
            assert(self.seed_found(
                cfg,
                mp.dict.blocks@[seeds[n - 1].block as int],
                residual,
                seeds[n - 1],
                caches[n - 1],
                caches[n - 1 + 1],
                scored[n - 1],
            ));
        }
    }

    /// What two pursuits are compared under: the machine answers alike, and nothing is rejected.
    pub open spec fn comparable(&self, a: MpConfig, b: MpConfig, dict: &Dictionary) -> bool {
        &&& variants(a, b)
        &&& self.answers_alike()
        &&& plain(a) || (self.rejects_nothing(a) && self.rejects_nothing(b))
        &&& forall|i: int|
            0 <= i < dict.blocks@.len() ==> (#[trigger] dict.blocks@[i]).support()
                <= dict.blocks@[i].fft_len
    }

    /// Where nothing is refined or validated, nothing is rejected.
    proof fn lemma_plain_rejects_nothing(&self, cfg: MpConfig)
        requires
            plain(cfg),
        ensures
            self.rejects_nothing(cfg),
    {
        assert forall|
            block: Block,
            residual: Seq<Single>,
            seed: Seed,
            cache: CacheState,
            left: CacheState,
            answer: Scored,
        |
            #[trigger] self.seed_found(cfg, block, residual, seed, cache, left, answer) implies
            !answer.rejected() by {
            self.lemma_plainly(cfg, block, residual, seed, cache, left, answer);
        }
    }

    /// A seed taken as it is: its frame's best bin, ranked by the energy that captures.
    proof fn lemma_plainly(
        &self,
        cfg: MpConfig,
        block: Block,
        residual: Seq<Single>,
        seed: Seed,
        cache: CacheState,
        left: CacheState,
        answer: Scored,
    ) -> (found: (usize, Projection))
        requires
            plain(cfg),
            self.seed_found(cfg, block, residual, seed, cache, left, answer),
        ensures
            left == cache,
            answer.energy == found.1.energy,
            answer.energy.at_most(Double { bits: ZERO }) ==> answer.outcome is None,
            !answer.energy.at_most(Double { bits: ZERO }) ==> answer.outcome is Some
                && answer.outcome->0.ranked_by() == answer.energy,
            exists|s: Seq<Bin>|
                {
                    &&& #[trigger] transformed(
                        self.transform,
                        windowed(
                            &self.scorer.reals,
                            residual,
                            block.env.samples@,
                            seed.onset as int,
                            block.fft_len as int,
                        ),
                        s,
                    )
                    &&& is_best_bin(&self.scorer.reals, block, s, found)
                },
    {
        let r = &self.scorer.reals;
        let x = windowed(
            r,
            residual,
            block.env.samples@,
            seed.onset as int,
            block.fft_len as int,
        );
        let (view, s, f) = choose|view: &[Single], s: Seq<Bin>, f: (usize, Projection)|
            {
                &&& view@ == residual
                &&& #[trigger] transformed(self.transform, x, s)
                &&& #[trigger] is_best_bin(r, block, s, f)
                &&& #[trigger] seed_scored(
                    r,
                    block,
                    view,
                    seed,
                    f,
                    cfg,
                    &self.scorer.search_of(view, block, block.env.params, cfg.refine),
                    &self.judge,
                    cache,
                    left,
                    answer,
                )
            };
        f
    }

    /// The tables after an atom is out are sound, however they were brought up with it.
    proof fn lemma_taken_is_sound(
        &self,
        cfg: MpConfig,
        s: Stand,
        best: Candidate,
        atom: Seq<Single>,
        next: Stand,
    )
        requires
            self.answers_alike(),
            cfg.full_update || self.bounds_hold_in(next.tables, next.residual),
            s.tables.wf(),
            s.tables.len == s.residual.len(),
            forall|i: int|
                0 <= i < s.tables.dict.blocks@.len() ==> (
                #[trigger] s.tables.dict.blocks@[i]).support() <= s.tables.dict.blocks@[i].fft_len,
            sound(s.tables, self.scans_of(s.tables.dict, s.residual)),
            atom.len() <= usize::MAX,
            self.taken(cfg, s, best, atom, next, false),
        ensures
            sound(next.tables, self.scans_of(next.tables.dict, next.residual)),
    {
        law_the_overlap_is_what_is_shared(
            s.residual.len() as int,
            atom.len() as int,
            best.atom.t0 as int,
        );
        if let Some(o) = overlap_of(
            s.residual.len() as int,
            atom.len() as int,
            best.atom.t0 as int,
        ) {
            if cfg.full_update {
                self.lemma_all_exact_is_sound(next.tables, next.residual);
            } else {
                self.lemma_brought_up_is_sound(s.tables, next.tables, s.residual, atom, o);
            }
        }
    }

    proof fn lemma_taken_alike(
        &self,
        cfg: MpConfig,
        other: MpConfig,
        a: Stand,
        b: Stand,
        best: Candidate,
        atom: Seq<Single>,
        next_a: Stand,
        next_b: Stand,
        stop_a: bool,
        stop_b: bool,
    )
        requires
            self.comparable(cfg, other, a.tables.dict),
            self.twins(a, b),
            atom.len() <= usize::MAX,
            self.taken(cfg, a, best, atom, next_a, stop_a),
            self.taken(other, b, best, atom, next_b, stop_b),
            cfg.full_update || stop_a || self.bounds_hold_in(next_a.tables, next_a.residual),
            other.full_update || stop_b || self.bounds_hold_in(next_b.tables, next_b.residual),
        ensures
            stop_a == stop_b,
            agree(next_a, next_b),
            !stop_a ==> self.twins(next_a, next_b),
            !stop_a ==> next_a.tables.dict == a.tables.dict,
    {
        if !stop_a {
            self.lemma_taken_is_sound(cfg, a, best, atom, next_a);
            self.lemma_taken_is_sound(other, b, best, atom, next_b);
        }
    }

    proof fn lemma_decided_alike(
        &self,
        cfg: MpConfig,
        other: MpConfig,
        a: Stand,
        b: Stand,
        scored_a: Seq<Scored>,
        scored_b: Seq<Scored>,
        next_a: Stand,
        next_b: Stand,
        stop_a: bool,
        stop_b: bool,
    )
        requires
            self.comparable(cfg, other, a.tables.dict),
            self.twins(a, b),
            rejects(scored_a, scored_a.len() as int) == Seq::<(usize, usize)>::empty(),
            rejects(scored_b, scored_b.len() as int) == Seq::<(usize, usize)>::empty(),
            best_of(scored_a, scored_a.len() as int) == best_of(scored_b, scored_b.len() as int),
            self.decided(cfg, a, scored_a, next_a, stop_a),
            self.decided(other, b, scored_b, next_b, stop_b),
            cfg.full_update || stop_a || self.bounds_hold_in(next_a.tables, next_a.residual),
            other.full_update || stop_b || self.bounds_hold_in(next_b.tables, next_b.residual),
        ensures
            stop_a == stop_b,
            agree(next_a, next_b),
            !stop_a ==> self.twins(next_a, next_b),
            !stop_a ==> next_a.tables.dict == a.tables.dict,
    {
        let ua = self.decided_over(cfg, a, scored_a, next_a, stop_a);
        let ub = self.decided_over(other, b, scored_b, next_b, stop_b);
        let exact = self.scans_of(a.tables.dict, a.residual);
        self.lemma_nothing_demoted(a.tables, ua, exact);
        self.lemma_nothing_demoted(b.tables, ub, exact);
        if let Some(c) = best_of(scored_a, scored_a.len() as int) {
            let ta = Stand { tables: ua, stalls: 0, ..a };
            let tb = Stand { tables: ub, stalls: 0, ..b };
            assert(self.twins(ta, tb));
            let da = choose|drawn: Option<Vec<Single>>|
                {
                    &&& #[trigger] call_ensures(self.synth, (c.atom,), drawn)
                    &&& match drawn {
                        Some(atom) => self.taken(cfg, ta, c, atom@, next_a, stop_a),
                        None => stop_a && next_a == ta,
                    }
                };
            let db = choose|drawn: Option<Vec<Single>>|
                {
                    &&& #[trigger] call_ensures(self.synth, (c.atom,), drawn)
                    &&& match drawn {
                        Some(atom) => self.taken(other, tb, c, atom@, next_b, stop_b),
                        None => stop_b && next_b == tb,
                    }
                };
            assert(drawn_alike(da, db));
            if let Some(atom) = da {
                assert(atom.len() == atom@.len());
                self.lemma_taken_alike(
                    cfg,
                    other,
                    ta,
                    tb,
                    c,
                    atom@,
                    next_a,
                    next_b,
                    stop_a,
                    stop_b,
                );
            }
        }
    }

    /// The tables a decision was taken over, once the rejected were demoted.
    proof fn decided_over<'b>(
        &self,
        cfg: MpConfig,
        s: Stand<'b>,
        scored: Seq<Scored>,
        next: Stand<'b>,
        stop: bool,
    ) -> (u: Mp<'b>)
        requires
            self.decided(cfg, s, scored, next, stop),
        ensures
            demoted(s.tables, u, rejects(scored, scored.len() as int)),
            u.wf(),
            match best_of(scored, scored.len() as int) {
                Some(c) => exists|drawn: Option<Vec<Single>>|
                    {
                        let t = Stand { tables: u, stalls: 0, ..s };
                        &&& #[trigger] call_ensures(self.synth, (c.atom,), drawn)
                        &&& match drawn {
                            Some(atom) => self.taken(cfg, t, c, atom@, next, stop),
                            None => stop && next == t,
                        }
                    },
                None => if rejects(scored, scored.len() as int).len() == 0 {
                    stop && next == (Stand { tables: u, ..s })
                } else {
                    &&& next == (Stand { tables: u, stalls: s.stalls + 1, ..s })
                    &&& stop == (s.stalls + 1 >= cfg.max_stalls)
                },
            },
    {
        let n = scored.len() as int;
        choose|u: Mp<'b>|
            {
                &&& #[trigger] demoted(s.tables, u, rejects(scored, n))
                &&& u.wf()
                &&& match best_of(scored, n) {
                    Some(c) => exists|drawn: Option<Vec<Single>>|
                        {
                            let t = Stand { tables: u, stalls: 0, ..s };
                            &&& #[trigger] call_ensures(self.synth, (c.atom,), drawn)
                            &&& match drawn {
                                Some(atom) => self.taken(cfg, t, c, atom@, next, stop),
                                None => stop && next == t,
                            }
                        },
                    None => if rejects(scored, n).len() == 0 {
                        stop && next == (Stand { tables: u, ..s })
                    } else {
                        &&& next == (Stand { tables: u, stalls: s.stalls + 1, ..s })
                        &&& stop == (s.stalls + 1 >= cfg.max_stalls)
                    },
                }
            }
    }

    /// A seed of sound tables holds its frame's exact energy, and no seed is stronger than the first.
    proof fn lemma_seeds_are_exact(&self, mp: Mp, residual: Seq<Single>, k: int, i: int)
        requires
            mp.wf(),
            k >= 1,
            residual.len() == mp.len,
            sound(mp, self.scans_of(mp.dict, residual)),
            0 <= i < selection(mp.table_views(), k).len(),
        ensures
            ({
                let seeds = selection(mp.table_views(), k);
                let s = seeds[i];
                &&& s.block < mp.dict.blocks@.len()
                &&& s.onset == s.frame * mp.dict.blocks@[s.block as int].hop
                &&& s.energy.finite()
                &&& s.energy == self.scan_of(
                    mp.dict.blocks@[s.block as int],
                    residual,
                    s.frame as int,
                ).1
                &&& s.energy.at_most(seeds[0].energy)
            }),
    {
        let ts = mp.table_views();
        let exact = self.scans_of(mp.dict, residual);
        let seeds = selection(ts, k);
        let s = seeds[i];
        lemma_seeds_in_tables(mp, k);
        assert forall|b: int| 0 <= b < mp.states@.len() implies (
        #[trigger] mp.states@[b]).energy@.len() == mp.frames_of(b) && mp.frames_of(b)
            <= usize::MAX by {
            assert(mp.states@[b].wf(mp.frames_of(b), mp.dict.blocks@[b].env.samples@));
            assert(mp.states@[b].energy.len() == mp.states@[b].energy@.len());
        }
        assert(mp.states.len() == mp.states@.len());
        assert(indexable(ts)) by {
            assert forall|j: int| 0 <= j < ts.len() implies (#[trigger] ts[j]).seen.len()
                <= usize::MAX by {
                assert(mp.states@[j].energy@.len() == mp.frames_of(j));
            }
        }
        assert(distinct_blocks(ts));
        law_selection(ts, k);
        assert(is_max(ts, seeds[i]));
        assert(is_max(ts, seeds[0]));
        let (b, n) = choose|b: int, n: int|
            0 <= b < ts.len() && #[trigger] peak(ts[b], n) && s == seed_at(ts[b], n);
        assert(mp.states@[b].energy@.len() == mp.frames_of(b));
        assert(block_sound(mp.states@[b], exact[b]));
        assert(frame_sound(mp.states@[b], exact[b], n));
        if i > 0 {
            assert(before(seeds[0], seeds[i]));
        }
    }

    /// Seeds taken as they are: the first is the best, and the cache is left alone.
    proof fn lemma_first_is_best(
        &self,
        cfg: MpConfig,
        mp: Mp,
        residual: Seq<Single>,
        scored: Seq<Scored>,
        caches: Seq<CacheState>,
        n: int,
    )
        requires
            plain(cfg),
            cfg.candidate_count >= 1,
            self.answers_alike(),
            mp.wf(),
            residual.len() == mp.len,
            sound(mp, self.scans_of(mp.dict, residual)),
            self.all_scored(
                cfg,
                mp,
                residual,
                selection(mp.table_views(), cfg.candidate_count as int),
                scored,
                caches,
            ),
            1 <= n <= scored.len(),
        ensures
            best_of(scored, n) == scored[0].survivor(),
            caches[n] == caches[0],
        decreases n,
    {
        let k = cfg.candidate_count as int;
        let seeds = selection(mp.table_views(), k);
        let i = n - 1;
        self.lemma_seeds_are_exact(mp, residual, k, i);
        self.lemma_seeds_are_exact(mp, residual, k, 0);
        let block = mp.dict.blocks@[seeds[i].block as int];
        assert(self.seed_found(
            cfg,
            block,
            residual,
            seeds[i],
            caches[i],
            caches[i + 1],
            scored[i],
        ));
        self.lemma_plain_energy(cfg, block, residual, seeds[i], caches[i], caches[i + 1], scored[i]);
        let first = mp.dict.blocks@[seeds[0].block as int];
        assert(self.seed_found(
            cfg,
            first,
            residual,
            seeds[0],
            caches[0],
            caches[0int + 1],
            scored[0],
        ));
        self.lemma_plain_energy(cfg, first, residual, seeds[0], caches[0], caches[1], scored[0]);
        if n > 1 {
            self.lemma_first_is_best(cfg, mp, residual, scored, caches, n - 1);
        } else {
            assert(best_of(scored, 0) is None);
        }
    }

    /// A seed taken as it is scores what its frame scans as.
    proof fn lemma_plain_energy(
        &self,
        cfg: MpConfig,
        block: Block,
        residual: Seq<Single>,
        seed: Seed,
        cache: CacheState,
        left: CacheState,
        answer: Scored,
    )
        requires
            plain(cfg),
            self.answers_alike(),
            seed.onset == seed.frame * block.hop,
            self.seed_found(cfg, block, residual, seed, cache, left, answer),
        ensures
            left == cache,
            answer.energy == self.scan_of(block, residual, seed.frame as int).1,
            answer.energy.at_most(Double { bits: ZERO }) ==> answer.survivor() is None,
            !answer.energy.at_most(Double { bits: ZERO }) ==> answer.survivor() is Some
                && answer.survivor()->0.ranked_by() == answer.energy,
    {
        let r = &self.scorer.reals;
        let found = self.lemma_plainly(cfg, block, residual, seed, cache, left, answer);
        let out = (found.0 as u32, found.1.energy);
        let x = windowed(
            r,
            residual,
            block.env.samples@,
            seed.onset as int,
            block.fft_len as int,
        );
        let s = choose|s: Seq<Bin>|
            {
                &&& #[trigger] transformed(self.transform, x, s)
                &&& is_best_bin(r, block, s, found)
            };
        assert(is_best_bin(r, block, s, (found.0, found.1)));
        assert(frame_scanned(r, block, residual, &self.transform, seed.frame, out));
        self.lemma_scan_is_one(block, residual, seed.frame as int, out);
    }

    proof fn lemma_searched_alike(
        &self,
        cfg: MpConfig,
        other: MpConfig,
        a: Stand,
        b: Stand,
        next_a: Stand,
        next_b: Stand,
        stop_a: bool,
        stop_b: bool,
    )
        requires
            self.comparable(cfg, other, a.tables.dict),
            self.twins(a, b),
            forall|i: int|
                0 <= i < a.tables.states@.len() ==> (#[trigger] a.tables.pending(
                    i,
                    cfg.candidate_count as int,
                )).len() == 0,
            forall|i: int|
                0 <= i < b.tables.states@.len() ==> (#[trigger] b.tables.pending(
                    i,
                    other.candidate_count as int,
                )).len() == 0,
            self.searched(cfg, a, next_a, stop_a),
            self.searched(other, b, next_b, stop_b),
            cfg.full_update || stop_a || self.bounds_hold_in(next_a.tables, next_a.residual),
            other.full_update || stop_b || self.bounds_hold_in(next_b.tables, next_b.residual),
        ensures
            stop_a == stop_b,
            agree(next_a, next_b),
            !stop_a ==> self.twins(next_a, next_b),
            !stop_a ==> next_a.tables.dict == a.tables.dict,
    {
        let (ka, kb) = (cfg.candidate_count as int, other.candidate_count as int);
        let exact = self.scans_of(a.tables.dict, a.residual);
        law_lazy_seeds_are_the_eager_ones(a.tables, exact, ka);
        law_lazy_seeds_are_the_eager_ones(b.tables, exact, kb);
        let views = eager_views(a.tables, exact);
        assert(views =~= eager_views(b.tables, exact)) by {
            assert forall|i: int| 0 <= i < exact.len() implies views[i]
                == #[trigger] eager_views(b.tables, exact)[i] by {
                assert(views[i].seen =~= eager_views(b.tables, exact)[i].seen);
            }
        }
        let seeds_a = selection(a.tables.table_views(), ka);
        let seeds_b = selection(b.tables.table_views(), kb);
        lemma_first_of_any(views, ka, kb);
        let floor = self.scorer.reals.times_of(a.energies.core, cfg.min_gain_fraction);
        if !(seeds_a.len() == 0 || seeds_a[0].energy.at_most(floor)) {
            let (xa, ca) = choose|scored: Seq<Scored>, caches: Seq<CacheState>|
                {
                    &&& #[trigger] self.all_scored(
                        cfg,
                        a.tables,
                        a.residual,
                        seeds_a,
                        scored,
                        caches,
                    )
                    &&& caches[0] == a.cache
                    &&& self.decided(
                        cfg,
                        Stand { cache: caches.last(), ..a },
                        scored,
                        next_a,
                        stop_a,
                    )
                };
            let (xb, cb) = choose|scored: Seq<Scored>, caches: Seq<CacheState>|
                {
                    &&& #[trigger] self.all_scored(
                        other,
                        b.tables,
                        b.residual,
                        seeds_b,
                        scored,
                        caches,
                    )
                    &&& caches[0] == b.cache
                    &&& self.decided(
                        other,
                        Stand { cache: caches.last(), ..b },
                        scored,
                        next_b,
                        stop_b,
                    )
                };
            let (na, nb) = (seeds_a.len() as int, seeds_b.len() as int);
            if plain(cfg) {
                self.lemma_plain_rejects_nothing(cfg);
                self.lemma_plain_rejects_nothing(other);
                self.lemma_first_is_best(cfg, a.tables, a.residual, xa, ca, na);
                self.lemma_first_is_best(other, b.tables, b.residual, xb, cb, nb);
                self.lemma_found_is_one(
                    cfg,
                    other,
                    a.tables.dict.blocks@[seeds_a[0].block as int],
                    a.residual,
                    seeds_a[0],
                    a.cache,
                    (ca[1], xa[0]),
                    (cb[1], xb[0]),
                );
            } else {
                self.lemma_scored_is_one(
                    cfg,
                    other,
                    a.tables,
                    b.tables,
                    a.residual,
                    seeds_a,
                    xa,
                    ca,
                    xb,
                    cb,
                    na,
                );
                assert(xa =~= xb);
            }
            assert(ca.last() == cb.last());
            self.lemma_no_rejects(cfg, a.tables, a.residual, seeds_a, xa, ca, na);
            self.lemma_no_rejects(other, b.tables, b.residual, seeds_b, xb, cb, nb);
            self.lemma_decided_alike(
                cfg,
                other,
                Stand { cache: ca.last(), ..a },
                Stand { cache: cb.last(), ..b },
                xa,
                xb,
                next_a,
                next_b,
                stop_a,
                stop_b,
            );
        }
    }

    /// Two pursuits that stand at the same place take the same turn.
    proof fn lemma_turns_alike(
        &self,
        cfg: MpConfig,
        other: MpConfig,
        initial: Double,
        a: Stand,
        b: Stand,
        next_a: Stand,
        next_b: Stand,
        stop_a: bool,
        stop_b: bool,
    )
        requires
            self.comparable(cfg, other, a.tables.dict),
            self.twins(a, b),
            self.turn(cfg, initial, a, next_a, stop_a),
            self.turn(other, initial, b, next_b, stop_b),
            cfg.full_update || stop_a || self.bounds_hold_in(next_a.tables, next_a.residual),
            other.full_update || stop_b || self.bounds_hold_in(next_b.tables, next_b.residual),
        ensures
            stop_a == stop_b,
            agree(next_a, next_b),
            !stop_a ==> self.twins(next_a, next_b),
            !stop_a ==> next_a.tables.dict == a.tables.dict,
    {
        if self.over(cfg, initial, a) {
            assert(self.over(other, initial, b));
            self.lemma_over_or_on(cfg, initial, a);
            self.lemma_over_or_on(other, initial, b);
        } else {
            assert(!self.over(other, initial, b));
            let (ka, kb) = (cfg.candidate_count as int, other.candidate_count as int);
            let pa = choose|passes: Seq<Mp>|
                {
                    &&& #[trigger] self.settled(passes, a.residual, ka)
                    &&& passes[0] == a.tables
                    &&& self.searched(cfg, Stand { tables: passes.last(), ..a }, next_a, stop_a)
                };
            let pb = choose|passes: Seq<Mp>|
                {
                    &&& #[trigger] self.settled(passes, b.residual, kb)
                    &&& passes[0] == b.tables
                    &&& self.searched(other, Stand { tables: passes.last(), ..b }, next_b, stop_b)
                };
            let (ta, tb) = (pa.last(), pb.last());
            self.lemma_settled_is_sound(pa, a.residual, ka, pa.len() - 1);
            self.lemma_settled_is_sound(pb, b.residual, kb, pb.len() - 1);
            self.lemma_searched_alike(
                cfg,
                other,
                Stand { tables: ta, ..a },
                Stand { tables: tb, ..b },
                next_a,
                next_b,
                stop_a,
                stop_b,
            );
        }
    }

    proof fn lemma_over_or_on(&self, cfg: MpConfig, initial: Double, s: Stand)
        requires
            self.answers_alike(),
            self.over(cfg, initial, s),
        ensures
            !self.goes_on(cfg, initial, s),
    {
    }

    /// Two runs of one signal are in step as far as both go.
    proof fn lemma_in_step(
        &self,
        cfg: MpConfig,
        other: MpConfig,
        initial: Double,
        a: Seq<Stand>,
        b: Seq<Stand>,
        i: int,
    )
        requires
            self.comparable(cfg, other, a[0].tables.dict),
            self.is_run(cfg, initial, a),
            self.is_run(other, initial, b),
            self.twins(a[0], b[0]),
            cfg.full_update || self.never_undercuts(a),
            other.full_update || self.never_undercuts(b),
            0 <= i < a.len(),
        ensures
            i < b.len(),
            agree(a[i], b[i]),
            i < a.len() - 1 ==> self.twins(a[i], b[i]) && a[i].tables.dict == a[0].tables.dict,
            (i == a.len() - 1) == (i == b.len() - 1),
        decreases i,
    {
        if i > 0 {
            self.lemma_in_step(cfg, other, initial, a, b, i - 1);
            assert(self.turn(cfg, initial, a[i - 1], a[i - 1 + 1], i - 1 == a.len() - 2));
            assert(self.turn(other, initial, b[i - 1], b[i - 1 + 1], i - 1 == b.len() - 2));
            self.lemma_turns_alike(
                cfg,
                other,
                initial,
                a[i - 1],
                b[i - 1],
                a[i],
                b[i],
                i - 1 == a.len() - 2,
                i - 1 == b.len() - 2,
            );
        }
    }

    /// Two runs go through the same residuals and energies, atom for atom, and end with the same
    /// book.
    pub open spec fn in_step(&self, a: Seq<Stand>, b: Seq<Stand>) -> bool {
        &&& a.len() == b.len()
        &&& forall|i: int| 0 <= i < a.len() ==> agree(#[trigger] a[i], b[i])
        &&& a.last().selections == b.last().selections
        &&& a.last().residual == b.last().residual
    }

    /// Two runs begin with one signal, over tables just computed.
    pub open spec fn begin_alike(&self, a: Stand, b: Stand) -> bool {
        &&& agree(a, b)
        &&& same_ground(a.tables, b.tables)
        &&& a.tables.wf()
        &&& b.tables.wf()
        &&& a.tables.len == a.residual.len()
        &&& self.all_exact(a.tables, a.residual)
        &&& self.all_exact(b.tables, b.residual)
    }

    proof fn lemma_runs_alike(
        &self,
        cfg: MpConfig,
        other: MpConfig,
        initial: Double,
        a: Seq<Stand>,
        b: Seq<Stand>,
    )
        requires
            self.comparable(cfg, other, a[0].tables.dict),
            self.is_run(cfg, initial, a),
            self.is_run(other, initial, b),
            self.begin_alike(a[0], b[0]),
            cfg.full_update || self.never_undercuts(a),
            other.full_update || self.never_undercuts(b),
        ensures
            self.in_step(a, b),
    {
        self.lemma_all_exact_is_sound(a[0].tables, a[0].residual);
        self.lemma_all_exact_is_sound(b[0].tables, b[0].residual);
        assert forall|i: int| 0 <= i < a.len() implies agree(#[trigger] a[i], b[i]) by {
            self.lemma_in_step(cfg, other, initial, a, b, i);
        }
        self.lemma_in_step(cfg, other, initial, a, b, a.len() - 1);
    }

    /// Bounding the frames an atom touches, and recomputing only those that could matter, selects what
    /// recomputing every frame of every block after every atom selects.
    ///
    /// That is so of every lazy run in which the machine answers alike, no bound undercuts the energy it
    /// stands for, and nothing is rejected; where candidates are neither refined nor validated, nothing
    /// is. A rejection demotes a frame, which the one undoes only where an atom touches it and the other
    /// everywhere.
    pub proof fn law_the_lazy_update_is_the_full_one(
        &self,
        cfg: MpConfig,
        initial: Double,
        lazy: Seq<Stand>,
        eager: Seq<Stand>,
    )
        requires
            cfg.candidate_count >= 1,
            !cfg.full_update,
            self.comparable(cfg, (MpConfig { full_update: true, ..cfg }), lazy[0].tables.dict),
            self.is_run(cfg, initial, lazy),
            self.is_run((MpConfig { full_update: true, ..cfg }), initial, eager),
            self.begin_alike(lazy[0], eager[0]),
            self.never_undercuts(lazy),
        ensures
            self.in_step(lazy, eager),
    {
        self.lemma_runs_alike(cfg, MpConfig { full_update: true, ..cfg }, initial, lazy, eager);
    }

    /// How many candidates are promoted changes nothing where they are neither refined nor validated: the
    /// strongest seed is then also the best candidate.
    pub proof fn law_the_candidate_count_changes_nothing(
        &self,
        cfg: MpConfig,
        candidate_count: usize,
        initial: Double,
        few: Seq<Stand>,
        many: Seq<Stand>,
    )
        requires
            plain(cfg),
            cfg.candidate_count >= 1,
            candidate_count >= 1,
            self.comparable(cfg, (MpConfig { candidate_count, ..cfg }), few[0].tables.dict),
            self.is_run(cfg, initial, few),
            self.is_run((MpConfig { candidate_count, ..cfg }), initial, many),
            self.begin_alike(few[0], many[0]),
            cfg.full_update || (self.never_undercuts(few) && self.never_undercuts(many)),
        ensures
            self.in_step(few, many),
    {
        self.lemma_runs_alike(cfg, MpConfig { candidate_count, ..cfg }, initial, few, many);
    }

    proof fn lemma_resolved_mirrors(
        &self,
        a: Mp,
        b: Mp,
        next_a: Mp,
        next_b: Mp,
        residual: Seq<Single>,
        k: int,
    )
        requires
            self.answers_alike(),
            a.wf(),
            b.wf(),
            mirrors(a, b),
            self.resolved_once(a, next_a, residual, k),
            self.resolved_once(b, next_b, residual, k),
        ensures
            mirrors(next_a, next_b),
    {
        lemma_same_pending(a, b, k);
        lemma_same_total(a, b, k, a.states@.len() as int);
        assert(next_a.per_block@ =~= next_b.per_block@) by {
            assert forall|i: int| 0 <= i < a.states@.len() implies next_a.per_block@[i]
                == #[trigger] next_b.per_block@[i] by {
                assert(a.pending(i, k) == b.pending(i, k));
            }
        }
        assert forall|i: int| 0 <= i < next_a.states@.len() implies same_frames(
            #[trigger] next_a.states@[i],
            next_b.states@[i],
        ) by {
            let (x, y) = (next_a.states@[i], next_b.states@[i]);
            assert(same_frames(a.states@[i], b.states@[i]));
            assert(x.wf(next_a.frames_of(i), next_a.dict.blocks@[i].env.samples@));
            assert(y.wf(next_b.frames_of(i), next_b.dict.blocks@[i].env.samples@));
            assert(a.states@[i].wf(a.frames_of(i), a.dict.blocks@[i].env.samples@));
            assert forall|n: int| 0 <= n < x.energy@.len() implies #[trigger] same_frame(x, y, n) by {
                assert(self.frame_resolved(a, next_a, residual, k, i, n));
                assert(self.frame_resolved(b, next_b, residual, k, i, n));
                assert(a.pending(i, k) == b.pending(i, k));
                if a.pending(i, k).contains(n as usize) {
                    let block = a.dict.blocks@[i];
                    self.lemma_scan_is_one(block, residual, n, (x.bin@[n], x.energy@[n]));
                    self.lemma_scan_is_one(block, residual, n, (y.bin@[n], y.energy@[n]));
                }
            }
            lemma_same_frames(x, y);
        }
    }

    proof fn lemma_settled_mirrors(
        &self,
        pa: Seq<Mp>,
        pb: Seq<Mp>,
        residual: Seq<Single>,
        k: int,
        i: int,
    )
        requires
            self.answers_alike(),
            pa[0].wf(),
            pb[0].wf(),
            mirrors(pa[0], pb[0]),
            self.settled(pa, residual, k),
            self.settled(pb, residual, k),
            0 <= i < pa.len(),
        ensures
            i < pb.len(),
            pa[i].wf(),
            pb[i].wf(),
            mirrors(pa[i], pb[i]),
            (i == pa.len() - 1) == (i == pb.len() - 1),
        decreases i,
    {
        if i > 0 {
            self.lemma_settled_mirrors(pa, pb, residual, k, i - 1);
            assert(self.resolved_once(pa[i - 1], pa[i - 1 + 1], residual, k));
            assert(self.resolved_once(pb[i - 1], pb[i - 1 + 1], residual, k));
            self.lemma_resolved_mirrors(pa[i - 1], pb[i - 1], pa[i], pb[i], residual, k);
        }
        lemma_same_pending(pa[i], pb[i], k);
        if i == pa.len() - 1 && i < pb.len() - 1 {
            assert(self.resolved_once(pb[i], pb[i + 1], residual, k));
            let j = choose|j: int|
                0 <= j < pb[i].states@.len() && (#[trigger] pb[i].pending(j, k)).len() > 0;
            assert(pa.last().pending(j, k).len() == 0);
        }
        if i == pb.len() - 1 && i < pa.len() - 1 {
            assert(self.resolved_once(pa[i], pa[i + 1], residual, k));
            let j = choose|j: int|
                0 <= j < pa[i].states@.len() && (#[trigger] pa[i].pending(j, k)).len() > 0;
            assert(pb.last().pending(j, k).len() == 0);
        }
    }

    proof fn lemma_brought_up_mirrors(
        &self,
        a: Mp,
        b: Mp,
        next_a: Mp,
        next_b: Mp,
        o: Overlap,
        landed: Seq<Single>,
    )
        requires
            a.wf(),
            b.wf(),
            mirrors(a, b),
            next_a.wf(),
            next_b.wf(),
            next_a.same_shape(a),
            next_b.same_shape(b),
            next_a.resolved == a.resolved,
            next_b.resolved == b.resolved,
            o.len > 0,
            landed.len() == o.len,
            self.brought_up(a, next_a, o, landed),
            self.brought_up(b, next_b, o, landed),
        ensures
            mirrors(next_a, next_b),
    {
        let r = &self.scorer.reals;
        let (tau, len) = (o.tau as int, o.len as int);
        lemma_same_stale(a, b, tau, len, a.states@.len() as int);
        assert(next_a.per_block@ =~= next_b.per_block@) by {
            assert forall|i: int| 0 <= i < a.states@.len() implies next_a.per_block@[i]
                == #[trigger] next_b.per_block@[i] by {
                assert(a.stale_frames(i, tau, len) == b.stale_frames(i, tau, len));
            }
        }
        assert forall|i: int| 0 <= i < next_a.states@.len() implies same_frames(
            #[trigger] next_a.states@[i],
            next_b.states@[i],
        ) by {
            let (x, y) = (next_a.states@[i], next_b.states@[i]);
            let (u, v) = (a.states@[i], b.states@[i]);
            assert(same_frames(u, v));
            let (bounds_a, bounds_b) = (
                a.bounds_for(r, i, tau, landed),
                b.bounds_for(r, i, tau, landed),
            );
            assert(a.bounded(i, x, tau, len, bounds_a));
            assert(b.bounded(i, y, tau, len, bounds_b));
            assert(bounds_a =~= bounds_b) by {
                let block = a.dict.blocks@[i];
                assert forall|m: int| 0 <= m < bounds_a.len() implies bounds_a[m]
                    == #[trigger] bounds_b[m] by {
                    let n = stale_first(block.hop as int, block.support(), tau) + m;
                    lemma_same_bound(r, a, b, i, n, tau, landed);
                }
            }
            assert forall|n: int| 0 <= n < x.energy@.len() implies #[trigger] same_frame(x, y, n) by {
                assert(x.energy@[n] == x.energy@[n] && y.energy@[n] == y.energy@[n]);
            }
            assert(x.wf(next_a.frames_of(i), next_a.dict.blocks@[i].env.samples@));
            assert(y.wf(next_b.frames_of(i), next_b.dict.blocks@[i].env.samples@));
            lemma_same_frames(x, y);
        }
    }

    proof fn lemma_exact_mirrors(&self, a: Mp, b: Mp, residual: Seq<Single>)
        requires
            self.answers_alike(),
            a.wf(),
            b.wf(),
            a.same_shape(b),
            self.all_exact(a, residual),
            self.all_exact(b, residual),
        ensures
            forall|i: int|
                0 <= i < a.states@.len() ==> same_frames(#[trigger] a.states@[i], b.states@[i]),
    {
        assert forall|i: int| 0 <= i < a.states@.len() implies same_frames(
            #[trigger] a.states@[i],
            b.states@[i],
        ) by {
            let (x, y) = (a.states@[i], b.states@[i]);
            assert(x.wf(a.frames_of(i), a.dict.blocks@[i].env.samples@));
            assert(y.wf(b.frames_of(i), b.dict.blocks@[i].env.samples@));
            assert forall|n: int| 0 <= n < x.energy@.len() implies #[trigger] same_frame(x, y, n) by {
                let block = a.dict.blocks@[i];
                assert(!x.dirty@[n] && !y.dirty@[n]);
                self.lemma_scan_is_one(block, residual, n, (x.bin@[n], x.energy@[n]));
                self.lemma_scan_is_one(block, residual, n, (y.bin@[n], y.energy@[n]));
            }
            lemma_same_frames(x, y);
        }
    }

    proof fn lemma_taken_again(
        &self,
        cfg: MpConfig,
        a: Stand,
        b: Stand,
        best: Candidate,
        atom: Seq<Single>,
        next_a: Stand,
        next_b: Stand,
        stop_a: bool,
        stop_b: bool,
    )
        requires
            self.answers_alike(),
            reflected(a, b),
            atom.len() <= usize::MAX,
            a.residual.len() <= usize::MAX,
            self.taken(cfg, a, best, atom, next_a, stop_a),
            self.taken(cfg, b, best, atom, next_b, stop_b),
        ensures
            stop_a == stop_b,
            reflected(next_a, next_b),
            next_a.residual.len() == a.residual.len(),
    {
        law_the_overlap_is_what_is_shared(
            a.residual.len() as int,
            atom.len() as int,
            best.atom.t0 as int,
        );
        if let Some(o) = overlap_of(
            a.residual.len() as int,
            atom.len() as int,
            best.atom.t0 as int,
        ) {
            if !stop_a {
                if cfg.full_update {
                    self.lemma_exact_mirrors(next_a.tables, next_b.tables, next_a.residual);
                } else {
                    self.lemma_brought_up_mirrors(
                        a.tables,
                        b.tables,
                        next_a.tables,
                        next_b.tables,
                        o,
                        atom.subrange(o.skip as int, o.skip + o.len),
                    );
                }
            }
        }
    }

    proof fn lemma_decided_again(
        &self,
        cfg: MpConfig,
        a: Stand,
        b: Stand,
        scored: Seq<Scored>,
        next_a: Stand,
        next_b: Stand,
        stop_a: bool,
        stop_b: bool,
    )
        requires
            self.answers_alike(),
            reflected(a, b),
            a.residual.len() <= usize::MAX,
            self.decided(cfg, a, scored, next_a, stop_a),
            self.decided(cfg, b, scored, next_b, stop_b),
        ensures
            stop_a == stop_b,
            reflected(next_a, next_b),
            next_a.residual.len() == a.residual.len(),
    {
        let n = scored.len() as int;
        let ua = self.decided_over(cfg, a, scored, next_a, stop_a);
        let ub = self.decided_over(cfg, b, scored, next_b, stop_b);
        lemma_demoted_mirrors(a.tables, b.tables, ua, ub, rejects(scored, n));
        if let Some(c) = best_of(scored, n) {
            let ta = Stand { tables: ua, stalls: 0, ..a };
            let tb = Stand { tables: ub, stalls: 0, ..b };
            let da = choose|drawn: Option<Vec<Single>>|
                {
                    &&& #[trigger] call_ensures(self.synth, (c.atom,), drawn)
                    &&& match drawn {
                        Some(atom) => self.taken(cfg, ta, c, atom@, next_a, stop_a),
                        None => stop_a && next_a == ta,
                    }
                };
            let db = choose|drawn: Option<Vec<Single>>|
                {
                    &&& #[trigger] call_ensures(self.synth, (c.atom,), drawn)
                    &&& match drawn {
                        Some(atom) => self.taken(cfg, tb, c, atom@, next_b, stop_b),
                        None => stop_b && next_b == tb,
                    }
                };
            assert(drawn_alike(da, db));
            if let Some(atom) = da {
                assert(atom.len() == atom@.len());
                self.lemma_taken_again(cfg, ta, tb, c, atom@, next_a, next_b, stop_a, stop_b);
            }
        }
    }

    proof fn lemma_turns_again(
        &self,
        cfg: MpConfig,
        initial: Double,
        a: Stand,
        b: Stand,
        next_a: Stand,
        next_b: Stand,
        stop_a: bool,
        stop_b: bool,
    )
        requires
            self.answers_alike(),
            cfg.candidate_count >= 1,
            reflected(a, b),
            a.residual.len() <= usize::MAX,
            self.turn(cfg, initial, a, next_a, stop_a),
            self.turn(cfg, initial, b, next_b, stop_b),
        ensures
            stop_a == stop_b,
            reflected(next_a, next_b),
            next_a.residual.len() == a.residual.len(),
    {
        if self.over(cfg, initial, a) {
            assert(self.over(cfg, initial, b));
            self.lemma_over_or_on(cfg, initial, a);
            self.lemma_over_or_on(cfg, initial, b);
        } else {
            assert(!self.over(cfg, initial, b));
            let k = cfg.candidate_count as int;
            let pa = choose|passes: Seq<Mp>|
                {
                    &&& #[trigger] self.settled(passes, a.residual, k)
                    &&& passes[0] == a.tables
                    &&& self.searched(cfg, Stand { tables: passes.last(), ..a }, next_a, stop_a)
                };
            let pb = choose|passes: Seq<Mp>|
                {
                    &&& #[trigger] self.settled(passes, b.residual, k)
                    &&& passes[0] == b.tables
                    &&& self.searched(cfg, Stand { tables: passes.last(), ..b }, next_b, stop_b)
                };
            self.lemma_settled_mirrors(pa, pb, a.residual, k, pa.len() - 1);
            let (sa, sb) = (
                Stand { tables: pa.last(), ..a },
                Stand { tables: pb.last(), ..b },
            );
            lemma_same_pending(sa.tables, sb.tables, k);
            let seeds = selection(sa.tables.table_views(), k);
            let floor = self.scorer.reals.times_of(a.energies.core, cfg.min_gain_fraction);
            if !(seeds.len() == 0 || seeds[0].energy.at_most(floor)) {
                let (xa, ca) = choose|scored: Seq<Scored>, caches: Seq<CacheState>|
                    {
                        &&& #[trigger] self.all_scored(
                            cfg,
                            sa.tables,
                            sa.residual,
                            seeds,
                            scored,
                            caches,
                        )
                        &&& caches[0] == sa.cache
                        &&& self.decided(
                            cfg,
                            Stand { cache: caches.last(), ..sa },
                            scored,
                            next_a,
                            stop_a,
                        )
                    };
                let (xb, cb) = choose|scored: Seq<Scored>, caches: Seq<CacheState>|
                    {
                        &&& #[trigger] self.all_scored(
                            cfg,
                            sb.tables,
                            sb.residual,
                            seeds,
                            scored,
                            caches,
                        )
                        &&& caches[0] == sb.cache
                        &&& self.decided(
                            cfg,
                            Stand { cache: caches.last(), ..sb },
                            scored,
                            next_b,
                            stop_b,
                        )
                    };
                self.lemma_scored_is_one(
                    cfg,
                    cfg,
                    sa.tables,
                    sb.tables,
                    a.residual,
                    seeds,
                    xa,
                    ca,
                    xb,
                    cb,
                    seeds.len() as int,
                );
                assert(xa =~= xb);
                assert(ca.last() == cb.last());
                self.lemma_decided_again(
                    cfg,
                    Stand { cache: ca.last(), ..sa },
                    Stand { cache: cb.last(), ..sb },
                    xa,
                    next_a,
                    next_b,
                    stop_a,
                    stop_b,
                );
            }
        }
    }

    proof fn lemma_again(
        &self,
        cfg: MpConfig,
        initial: Double,
        a: Seq<Stand>,
        b: Seq<Stand>,
        i: int,
    )
        requires
            self.answers_alike(),
            cfg.candidate_count >= 1,
            self.is_run(cfg, initial, a),
            self.is_run(cfg, initial, b),
            reflected(a[0], b[0]),
            a[0].residual.len() <= usize::MAX,
            0 <= i < a.len(),
        ensures
            i < b.len(),
            reflected(a[i], b[i]),
            a[i].residual.len() == a[0].residual.len(),
            (i == a.len() - 1) == (i == b.len() - 1),
        decreases i,
    {
        if i > 0 {
            self.lemma_again(cfg, initial, a, b, i - 1);
            assert(self.turn(cfg, initial, a[i - 1], a[i - 1 + 1], i - 1 == a.len() - 2));
            assert(self.turn(cfg, initial, b[i - 1], b[i - 1 + 1], i - 1 == b.len() - 2));
            self.lemma_turns_again(
                cfg,
                initial,
                a[i - 1],
                b[i - 1],
                a[i],
                b[i],
                i - 1 == a.len() - 2,
                i - 1 == b.len() - 2,
            );
        }
    }

    /// What a pursuit begins from is the signal's alone: two sets of tables over one signal hold the
    /// same, and the energies are the same.
    pub proof fn law_fresh_tables_are_the_signals_alone(
        &self,
        dict: &Dictionary,
        signal: Seq<Single>,
        core_len: int,
        a: Mp,
        b: Mp,
        before: Energies,
        after: Energies,
    )
        requires
            self.answers_alike(),
            self.begun(dict, signal, core_len, a, before),
            self.begun(dict, signal, core_len, b, after),
        ensures
            mirrors(a, b),
            same_ground(a, b),
            before.whole == after.whole,
            before.core == after.core,
    {
        assert forall|i: int| 0 <= i < a.states@.len() implies (#[trigger] a.states@[i]).same_envelope(
            b.states@[i],
        ) by {
            let (x, y) = (a.states@[i], b.states@[i]);
            let env = dict.blocks@[i].env.samples@;
            assert(x.wf(a.frames_of(i), env));
            assert(y.wf(b.frames_of(i), env));
            assert(x.env_prefix_max@ =~= y.env_prefix_max@);
            assert(x.env_suffix_max@ =~= y.env_suffix_max@);
        }
        self.lemma_exact_mirrors(a, b, signal);
        assert(a.per_block@ =~= b.per_block@);
    }

    proof fn lemma_run_again(&self, cfg: MpConfig, initial: Double, once: Seq<Stand>, again: Seq<Stand>)
        requires
            self.answers_alike(),
            cfg.candidate_count >= 1,
            self.is_run(cfg, initial, once),
            self.is_run(cfg, initial, again),
            reflected(once[0], again[0]),
            once[0].residual.len() <= usize::MAX,
        ensures
            self.in_step(once, again),
            mirrors(once.last().tables, again.last().tables),
    {
        assert forall|i: int| 0 <= i < once.len() implies agree(#[trigger] once[i], again[i]) by {
            self.lemma_again(cfg, initial, once, again, i);
        }
        self.lemma_again(cfg, initial, once, again, once.len() - 1);
    }

    /// A stretch of signal decomposed twice, each time from tables of its own, gives the same atoms, the
    /// same residual and the same counts.
    pub proof fn law_a_stretch_decomposes_one_way(
        &self,
        dict: &Dictionary,
        cfg: MpConfig,
        signal: Seq<Single>,
        core_len: int,
        once: Seq<Stand>,
        again: Seq<Stand>,
    )
        requires
            self.answers_alike(),
            cfg.candidate_count >= 1,
            signal.len() <= usize::MAX,
            self.decomposed(dict, cfg, signal, core_len, once),
            self.decomposed(dict, cfg, signal, core_len, again),
        ensures
            self.in_step(once, again),
            mirrors(once.last().tables, again.last().tables),
    {
        reveal(Kit::decomposed);
        self.law_fresh_tables_are_the_signals_alone(
            dict,
            signal,
            core_len,
            once[0].tables,
            again[0].tables,
            once[0].energies,
            again[0].energies,
        );
        self.lemma_run_again(cfg, once[0].energies.core, once, again);
    }

    /// A signal decomposed with the lazy update and with the full one, each time from tables of its own,
    /// gives the same atoms and the same residual: see [`Kit::law_the_lazy_update_is_the_full_one`].
    pub proof fn law_a_signal_decomposes_lazily_as_in_full(
        &self,
        dict: &Dictionary,
        cfg: MpConfig,
        signal: Seq<Single>,
        core_len: int,
        lazy: Seq<Stand>,
        eager: Seq<Stand>,
    )
        requires
            !cfg.full_update,
            self.comparable(cfg, (MpConfig { full_update: true, ..cfg }), dict),
            self.decomposed(dict, cfg, signal, core_len, lazy),
            self.decomposed(dict, (MpConfig { full_update: true, ..cfg }), signal, core_len, eager),
            self.never_undercuts(lazy),
        ensures
            self.in_step(lazy, eager),
    {
        reveal(Kit::decomposed);
        self.law_fresh_tables_are_the_signals_alone(
            dict,
            signal,
            core_len,
            lazy[0].tables,
            eager[0].tables,
            lazy[0].energies,
            eager[0].energies,
        );
        self.law_the_lazy_update_is_the_full_one(cfg, lazy[0].energies.core, lazy, eager);
    }

    /// A plan of one window changes nothing: the run is what beginning on the whole signal and running
    /// to the end gives, atoms, residual and counts alike.
    pub proof fn law_a_plan_of_one_window_is_one_pursuit<K: Fn() -> u64>(
        &self,
        dict: &Dictionary,
        signal: Seq<Single>,
        cfg: MpConfig,
        plan: WindowPlan,
        clock: &K,
        run: WindowedRun,
        told: Seq<Said>,
        alone: Seq<Stand>,
    )
        requires
            self.answers_alike(),
            cfg.candidate_count >= 1,
            signal.len() <= usize::MAX,
            plan.count <= 1,
            self.is_windowed_run(dict, signal, cfg, plan, clock, run, told),
            self.decomposed(dict, cfg, signal, signal.len() as int, alone),
        ensures
            run.selections@ == alone.last().selections,
            run.residual@ == alone.last().residual,
            run.marked == alone.last().tables.marked,
            run.resolved == alone.last().tables.resolved,
            run.per_block@ == alone.last().tables.per_block@,
    {
        let total = signal.len() as int;
        let trace = choose|trace: Seq<Stand>|
            {
                &&& #[trigger] self.decomposed(dict, cfg, signal, total, trace)
                &&& trace.last().selections == run.selections@
                &&& trace.last().residual == run.residual@
                &&& trace.last().tables.marked == run.marked
                &&& trace.last().tables.resolved == run.resolved
                &&& trace.last().tables.per_block@ == run.per_block@
            };
        self.law_a_stretch_decomposes_one_way(dict, cfg, signal, total, trace, alone);
    }

    /// A pursuit is reproducible: run twice over one signal from the same tables, rejections and all,
    /// it selects the same atoms, and leaves the same tables.
    pub proof fn law_a_run_is_reproducible(
        &self,
        cfg: MpConfig,
        initial: Double,
        once: Seq<Stand>,
        again: Seq<Stand>,
    )
        requires
            self.answers_alike(),
            cfg.candidate_count >= 1,
            self.is_run(cfg, initial, once),
            self.is_run(cfg, initial, again),
            once[0] == again[0],
            once[0].tables.wf(),
            once[0].residual.len() <= usize::MAX,
        ensures
            self.in_step(once, again),
            mirrors(once.last().tables, again.last().tables),
    {
        lemma_reflected_in_itself(once[0]);
        self.lemma_run_again(cfg, initial, once, again);
    }
}

/// A frame holds the same in two blocks.
pub open spec fn same_frame(x: BlockState, y: BlockState, n: int) -> bool {
    x.energy@[n] == y.energy@[n] && x.bin@[n] == y.bin@[n] && x.dirty@[n] == y.dirty@[n]
}

/// Two blocks' frames hold the same.
pub open spec fn same_frames(x: BlockState, y: BlockState) -> bool {
    &&& x.energy@ == y.energy@
    &&& x.bin@ == y.bin@
    &&& x.dirty@ == y.dirty@
}

/// Two sets of tables hold the same, and have counted the same.
pub open spec fn mirrors(a: Mp, b: Mp) -> bool {
    &&& a.same_shape(b)
    &&& a.marked == b.marked
    &&& a.resolved == b.resolved
    &&& a.per_block@ == b.per_block@
    &&& forall|i: int|
        0 <= i < a.states@.len() ==> same_frames(#[trigger] a.states@[i], b.states@[i])
}

/// Two pursuits stand at the same place, tables and all.
pub open spec fn reflected(a: Stand, b: Stand) -> bool {
    &&& agree(a, b)
    &&& a.tables.wf()
    &&& b.tables.wf()
    &&& mirrors(a.tables, b.tables)
}

proof fn lemma_reflected_in_itself(s: Stand)
    requires
        s.tables.wf(),
    ensures
        reflected(s, s),
{
}

proof fn lemma_same_frames(x: BlockState, y: BlockState)
    requires
        x.energy@.len() == y.energy@.len(),
        x.bin@.len() == x.energy@.len(),
        x.dirty@.len() == x.energy@.len(),
        y.bin@.len() == x.energy@.len(),
        y.dirty@.len() == x.energy@.len(),
        forall|n: int| 0 <= n < x.energy@.len() ==> #[trigger] same_frame(x, y, n),
    ensures
        same_frames(x, y),
{
    assert forall|n: int| 0 <= n < x.energy@.len() implies x.energy@[n] == #[trigger] y.energy@[n] by {
        assert(same_frame(x, y, n));
    }
    assert forall|n: int| 0 <= n < x.energy@.len() implies x.bin@[n] == #[trigger] y.bin@[n] by {
        assert(same_frame(x, y, n));
    }
    assert forall|n: int| 0 <= n < x.energy@.len() implies x.dirty@[n] == #[trigger] y.dirty@[n] by {
        assert(same_frame(x, y, n));
    }
    assert(x.energy@ =~= y.energy@);
    assert(x.bin@ =~= y.bin@);
    assert(x.dirty@ =~= y.dirty@);
}

proof fn lemma_same_list(x: BlockState, y: BlockState, line: Option<Double>, n: int)
    requires
        same_frames(x, y),
    ensures
        dirty_list(x, line, n) == dirty_list(y, line, n),
    decreases n,
{
    if n > 0 {
        lemma_same_list(x, y, line, n - 1);
    }
}

/// Tables that hold the same show the same, and ask for the same frames.
proof fn lemma_same_pending(a: Mp, b: Mp, k: int)
    requires
        mirrors(a, b),
    ensures
        a.table_views() == b.table_views(),
        forall|i: int|
            #![trigger a.pending(i, k)]
            #![trigger b.pending(i, k)]
            0 <= i < a.states@.len() ==> a.pending(i, k) == b.pending(i, k),
{
    assert(a.table_views() =~= b.table_views()) by {
        assert forall|i: int| 0 <= i < a.states@.len() implies a.table_views()[i]
            == #[trigger] b.table_views()[i] by {
            assert(same_frames(a.states@[i], b.states@[i]));
            assert(a.frame_view(i).seen =~= b.frame_view(i).seen);
        }
    }
    assert forall|i: int| 0 <= i < a.states@.len() implies #[trigger] a.pending(i, k) == b.pending(
        i,
        k,
    ) by {
        assert(same_frames(a.states@[i], b.states@[i]));
        lemma_same_list(
            a.states@[i],
            b.states@[i],
            Some(a.line(k)),
            a.states@[i].energy@.len() as int,
        );
    }
}

proof fn lemma_same_total(a: Mp, b: Mp, k: int, n: int)
    requires
        mirrors(a, b),
        0 <= n <= a.states@.len(),
    ensures
        pending_total(a, k, n) == pending_total(b, k, n),
    decreases n,
{
    if n > 0 {
        lemma_same_total(a, b, k, n - 1);
        lemma_same_pending(a, b, k);
        assert(a.pending(n - 1, k) == b.pending(n - 1, k));
    }
}

proof fn lemma_same_stale(a: Mp, b: Mp, tau: int, len: int, n: int)
    requires
        mirrors(a, b),
        0 <= n <= a.states@.len(),
    ensures
        total_stale(a, tau, len, n) == total_stale(b, tau, len, n),
    decreases n,
{
    if n > 0 {
        lemma_same_stale(a, b, tau, len, n - 1);
    }
}

proof fn lemma_same_bound<R: Reals>(
    r: &R,
    a: Mp,
    b: Mp,
    i: int,
    n: int,
    tau: int,
    landed: Seq<Single>,
)
    requires
        mirrors(a, b),
        0 <= i < a.states@.len(),
    ensures
        a.frame_bound(r, i, n, tau, landed) == b.frame_bound(r, i, n, tau, landed),
{
    let (x, y) = (a.states@[i], b.states@[i]);
    assert(same_frames(x, y));
    assert(x.same_envelope(y));
    let block = a.dict.blocks@[i];
    assert(chunks_of(x, n * block.hop, block.support(), tau, landed.len() as int) =~= chunks_of(
        y,
        n * block.hop,
        block.support(),
        tau,
        landed.len() as int,
    ));
}

proof fn lemma_demoted_mirrors(a: Mp, b: Mp, next_a: Mp, next_b: Mp, list: Seq<(usize, usize)>)
    requires
        a.wf(),
        b.wf(),
        mirrors(a, b),
        next_a.wf(),
        next_b.wf(),
        demoted(a, next_a, list),
        demoted(b, next_b, list),
    ensures
        mirrors(next_a, next_b),
{
    assert forall|i: int| 0 <= i < next_a.states@.len() implies same_frames(
        #[trigger] next_a.states@[i],
        next_b.states@[i],
    ) by {
        let (x, y) = (next_a.states@[i], next_b.states@[i]);
        assert(same_frames(a.states@[i], b.states@[i]));
        assert(x.bin@ == a.states@[i].bin@);
        assert(y.bin@ == b.states@[i].bin@);
        assert(x.wf(next_a.frames_of(i), next_a.dict.blocks@[i].env.samples@));
        assert(y.wf(next_b.frames_of(i), next_b.dict.blocks@[i].env.samples@));
        assert forall|n: int| 0 <= n < x.energy@.len() implies #[trigger] same_frame(x, y, n) by {
            assert(x.energy@[n] == x.energy@[n] && y.energy@[n] == y.energy@[n]);
            assert(y.dirty@[n] == y.dirty@[n]);
        }
        lemma_same_frames(x, y);
    }
}

/// However many seeds are asked for, the first is the same.
proof fn lemma_first_of_any(ts: Seq<FrameView>, j: int, k: int)
    requires
        j >= 1,
        k >= 1,
    ensures
        selection(ts, j).len() > 0 <==> selection(ts, k).len() > 0,
        selection(ts, j).len() > 0 ==> selection(ts, j)[0] == selection(ts, k)[0],
        j == k ==> selection(ts, j) == selection(ts, k),
{
    lemma_first_kept(ts, ranked(all_maxima(ts)), j);
    lemma_first_kept(ts, ranked(all_maxima(ts)), k);
}

proof fn lemma_first_kept(ts: Seq<FrameView>, s: Seq<Seed>, k: int)
    requires
        k >= 1,
    ensures
        s.len() == 0 ==> keep(ts, s, k).len() == 0,
        s.len() > 0 ==> keep(ts, s, k).len() > 0 && keep(ts, s, k)[0] == s[0],
    decreases s.len(),
{
    if s.len() > 0 {
        lemma_first_kept(ts, s.drop_last(), k);
    }
}

} // verus!
