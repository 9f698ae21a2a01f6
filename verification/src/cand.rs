//! Coarse candidate discovery: local time-frequency maxima, merged across blocks.
//!
//! The best seed is not necessarily the seed that refines to the best atom, so the pursuit promotes
//! several. A strong event lights up a run of consecutive frames, all reporting nearly the same
//! energy; keeping only frames that are local maxima, and then suppressing the survivors within half
//! an atom's duration of a stronger one, gives seeds that are distinct events.
//!
//! Seeds rank by energy, strongest first, with ties to the lowest block and then the lowest frame.
//! A plateau is represented by its lowest frame. Together these make the first seed the plain
//! global argmax.

use crate::atom::AtomParams;
use crate::ieee::{Double, Single, NEG_INFINITY};
use rayon::prelude::{IntoParallelRefIterator, ParallelIterator};
use crate::dict::Block;
use crate::reals::Reals;
use vstd::prelude::*;

verus! {

/// One block's frame table, as the candidate search sees it.
pub struct FrameTable<'a> {
    pub block: usize,
    /// Best projected energy per frame.
    pub energy: &'a [Double],
    /// Bin achieving it.
    pub bin: &'a [u32],
    /// Frames holding a bound rather than an exact value, hidden from the scan. `None` where every
    /// frame is exact.
    pub dirty: Option<&'a [bool]>,
    /// Frames the search may select from: the leading `core_frames`. `None` means the whole table.
    pub core_frames: Option<usize>,
    pub hop: usize,
    pub support_len: usize,
}

/// What a [`FrameTable`] amounts to: per frame, the energy the scan sees.
pub struct FrameView {
    pub block: usize,
    pub seen: Seq<Double>,
    pub bin: Seq<u32>,
    pub hop: usize,
    pub support_len: usize,
}

/// A promoted local maximum, before any refinement.
#[derive(Clone, Copy, Debug, PartialEq, Eq, Structural)]
pub struct Seed {
    pub block: usize,
    pub frame: usize,
    pub bin: usize,
    /// Grid onset in samples, `frame * hop`.
    pub onset: usize,
    pub energy: Double,
}

/// A candidate carried through refinement to selection.
#[derive(Clone, Copy, Debug, PartialEq, Eq, Structural)]
pub struct Candidate {
    pub seed: Seed,
    /// Replayable parameters. Seeded from the block, overwritten by refinement.
    pub atom: AtomParams,
    /// Ordinary captured energy at `atom`, on the full support.
    pub mp_score: Double,
    /// The local-support score, when that validation ran on this candidate.
    pub hr_score: Option<Double>,
    /// Whether refinement moved the parameters off the seed.
    pub refined: bool,
}

impl Candidate {
    /// A candidate of a block's own envelope, at its seed's bin and frame onset.
    pub open spec fn seeded<R: Reals>(
        r: &R,
        seed: Seed,
        block: Block,
        amp: Single,
        phi: Single,
        mp_score: Double,
    ) -> Candidate {
        Candidate {
            seed,
            atom: AtomParams {
                t0: seed.onset as i64,
                f: block.hz(r, seed.bin),
                env: block.env.params,
                phi,
                amp,
            },
            mp_score,
            hr_score: None,
            refined: false,
        }
    }

    /// Seed a candidate from its block's own envelope, bin and frame onset.
    pub fn from_seed<R: Reals>(
        r: &R,
        seed: Seed,
        block: &Block,
        amp: Single,
        phi: Single,
        mp_score: Double,
    ) -> (answer: Candidate)
        requires
            r.repeatable(),
            seed.onset <= i64::MAX,
        ensures
            answer == Candidate::seeded(r, seed, *block, amp, phi, mp_score),
    {
        Candidate {
            seed,
            atom: AtomParams {
                t0: seed.onset as i64,
                f: block.bin_hz(r, seed.bin),
                env: block.env.params,
                phi,
                amp,
            },
            mp_score,
            hr_score: None,
            refined: false,
        }
    }

    pub open spec fn ranked_by(self) -> Double {
        match self.hr_score {
            Some(s) => s,
            None => self.mp_score,
        }
    }

    /// The score selection compares: the local-support one where it ran, the ordinary one otherwise.
    pub fn score(&self) -> (r: Double)
        ensures
            r == self.ranked_by(),
    {
        match self.hr_score {
            Some(s) => s,
            None => self.mp_score,
        }
    }
}

/// Frames across all tables above which the blocks are scanned in parallel.
///
/// A scan costs a few nanoseconds a frame against tens of microseconds to wake the pool.
pub const PARALLEL_SCAN_FRAMES: usize = 8192;

// ---------------------------------------------------------------------------------------------
// what the scan sees
// ---------------------------------------------------------------------------------------------

impl<'a> FrameTable<'a> {
    /// The frames the scan may look at.
    pub open spec fn scanned(&self) -> int {
        match self.core_frames {
            Some(c) => if c < self.energy@.len() {
                c as int
            } else {
                self.energy@.len() as int
            },
            None => self.energy@.len() as int,
        }
    }

    /// Every scanned frame has its bin and its flag, and its onset is a sample index.
    pub open spec fn wf(&self) -> bool {
        &&& self.bin@.len() >= self.scanned()
        &&& self.dirty matches Some(d) ==> d@.len() >= self.scanned()
        &&& self.energy@.len() > 0 ==> (self.energy@.len() - 1) * self.hop <= usize::MAX
    }

    /// The energy the scan sees at frame `n`: negative infinity where the frame is dirty, outside
    /// the core, or not finite.
    pub open spec fn masked_at(&self, n: int) -> Double {
        if self.core_frames matches Some(c) && n >= c {
            Double { bits: NEG_INFINITY }
        } else if self.dirty matches Some(d) && d@[n] {
            Double { bits: NEG_INFINITY }
        } else if self.energy@[n].finite() {
            self.energy@[n]
        } else {
            Double { bits: NEG_INFINITY }
        }
    }

    fn masked(&self, n: usize) -> (r: Double)
        requires
            self.wf(),
            n < self.energy@.len(),
        ensures
            r == self.masked_at(n as int),
    {
        if let Some(c) = self.core_frames {
            if n >= c {
                return Double { bits: NEG_INFINITY };
            }
        }
        if let Some(d) = self.dirty {
            if d[n] {
                return Double { bits: NEG_INFINITY };
            }
        }
        let e = self.energy[n];
        if e.is_finite() {
            e
        } else {
            Double { bits: NEG_INFINITY }
        }
    }
}

impl<'a> View for FrameTable<'a> {
    type V = FrameView;

    open spec fn view(&self) -> FrameView {
        FrameView {
            block: self.block,
            seen: Seq::new(self.energy@.len(), |n: int| self.masked_at(n)),
            bin: self.bin@,
            hop: self.hop,
            support_len: self.support_len,
        }
    }
}

/// The views of a run of tables.
pub open spec fn views(tables: Seq<FrameTable>) -> Seq<FrameView> {
    tables.map_values(|t: FrameTable| t@)
}

pub open spec fn all_wf(tables: Seq<FrameTable>) -> bool {
    forall|i: int| 0 <= i < tables.len() ==> (#[trigger] tables[i]).wf()
}

// ---------------------------------------------------------------------------------------------
// maxima, their rank, and which crowd which
// ---------------------------------------------------------------------------------------------

/// Frame `n` is a local maximum: above the frame before it and not below the frame after it.
pub open spec fn peak(v: FrameView, n: int) -> bool {
    &&& 0 <= n < v.seen.len()
    &&& v.seen[n].finite()
    &&& n == 0 || v.seen[n - 1].less(v.seen[n])
    &&& n + 1 == v.seen.len() || v.seen[n + 1].at_most(v.seen[n])
}

/// The seed a frame is promoted to.
pub open spec fn seed_at(v: FrameView, n: int) -> Seed {
    Seed {
        block: v.block,
        frame: n as usize,
        bin: v.bin[n] as usize,
        onset: (n * v.hop) as usize,
        energy: v.seen[n],
    }
}

/// `a` ranks before `b`: stronger, or as strong on a lower block, or on the same block at a lower
/// frame.
pub open spec fn before(a: Seed, b: Seed) -> bool {
    ||| b.energy.total() < a.energy.total()
    ||| b.energy == a.energy && a.block < b.block
    ||| b.energy == a.energy && a.block == b.block && a.frame < b.frame
}

/// The distance between two onsets.
pub open spec fn apart(a: Seed, b: Seed) -> int {
    if a.onset <= b.onset {
        b.onset - a.onset
    } else {
        a.onset - b.onset
    }
}

/// The support length of the block a seed came from: the first table of that block.
pub open spec fn support_of(ts: Seq<FrameView>, block: usize) -> int
    decreases ts.len(),
{
    if ts.len() == 0 {
        0
    } else if ts[0].block == block {
        ts[0].support_len as int
    } else {
        support_of(ts.drop_first(), block)
    }
}

/// Two seeds of one block closer than half a support: the same event.
pub open spec fn crowds(ts: Seq<FrameView>, a: Seed, b: Seed) -> bool {
    a.block == b.block && 2 * apart(a, b) < support_of(ts, b.block)
}

/// The local maxima among the first `n` frames of a table, in frame order.
pub open spec fn maxima(v: FrameView, n: int) -> Seq<Seed>
    decreases n,
{
    if n <= 0 {
        Seq::empty()
    } else if peak(v, n - 1) {
        maxima(v, n - 1).push(seed_at(v, n - 1))
    } else {
        maxima(v, n - 1)
    }
}

/// The local maxima of every table, in table order.
pub open spec fn all_maxima(ts: Seq<FrameView>) -> Seq<Seed>
    decreases ts.len(),
{
    if ts.len() == 0 {
        Seq::empty()
    } else {
        all_maxima(ts.drop_last()) + maxima(ts.last(), ts.last().seen.len() as int)
    }
}

/// `s` is a local maximum of one of the tables.
pub open spec fn is_max(ts: Seq<FrameView>, s: Seed) -> bool {
    exists|i: int, n: int|
        0 <= i < ts.len() && #[trigger] peak(ts[i], n) && s == seed_at(ts[i], n)
}

// ---------------------------------------------------------------------------------------------
// ranking
// ---------------------------------------------------------------------------------------------

/// `x` put in its place in a ranked run, after everything it does not rank before.
pub open spec fn place(s: Seq<Seed>, x: Seed) -> Seq<Seed>
    decreases s.len(),
{
    if s.len() == 0 || !before(x, s.last()) {
        s.push(x)
    } else {
        place(s.drop_last(), x).push(s.last())
    }
}

/// `s` in rank order.
pub open spec fn ranked(s: Seq<Seed>) -> Seq<Seed>
    decreases s.len(),
{
    if s.len() == 0 {
        Seq::empty()
    } else {
        place(ranked(s.drop_last()), s.last())
    }
}

/// The first `n` of a run, or all of it.
pub open spec fn first(s: Seq<Seed>, n: int) -> Seq<Seed> {
    if n >= s.len() {
        s
    } else {
        s.take(n)
    }
}

/// No seed ranks before an earlier one.
pub open spec fn in_order(s: Seq<Seed>) -> bool {
    forall|i: int, j: int| #![trigger s[i], s[j]] 0 <= i < j < s.len() ==> !before(s[j], s[i])
}

/// Every seed ranks before every later one.
pub open spec fn strictly_ranked(s: Seq<Seed>) -> bool {
    forall|i: int, j: int| #![trigger s[i], s[j]] 0 <= i < j < s.len() ==> before(s[i], s[j])
}

/// `s` is crowded by a seed already kept.
pub open spec fn crowded(ts: Seq<FrameView>, kept: Seq<Seed>, s: Seed) -> bool {
    exists|i: int| 0 <= i < kept.len() && crowds(ts, #[trigger] kept[i], s)
}

/// The first `k` of a ranked run that no earlier kept one crowds.
pub open spec fn keep(ts: Seq<FrameView>, s: Seq<Seed>, k: int) -> Seq<Seed>
    decreases s.len(),
{
    if s.len() == 0 {
        Seq::empty()
    } else {
        let kept = keep(ts, s.drop_last(), k);
        if kept.len() >= k || crowded(ts, kept, s.last()) {
            kept
        } else {
            kept.push(s.last())
        }
    }
}

/// The best `k` distinct seeds of the tables, found by one scan over all of them in rank order.
pub open spec fn selection(ts: Seq<FrameView>, k: int) -> Seq<Seed> {
    keep(ts, ranked(all_maxima(ts)), k)
}

/// The best `k` seeds of each table on its own, one table after another.
pub open spec fn by_block(ts: Seq<FrameView>, k: int) -> Seq<Seed>
    decreases ts.len(),
{
    if ts.len() == 0 {
        Seq::empty()
    } else {
        by_block(ts.drop_last(), k) + selection(seq![ts.last()], k)
    }
}

/// No two tables are of one block.
pub open spec fn distinct_blocks(ts: Seq<FrameView>) -> bool {
    forall|i: int, j: int|
        #![trigger ts[i], ts[j]]
        0 <= i < j < ts.len() ==> ts[i].block != ts[j].block
}

/// What makes `r` the best `k` distinct seeds: each is a local maximum, they are ranked, no two are
/// the same event, and every other maximum is the same event as a stronger seed of `r` or ranks
/// after all of `k` of them.
pub open spec fn is_selection(ts: Seq<FrameView>, k: int, r: Seq<Seed>) -> bool {
    &&& r.len() <= k
    &&& forall|i: int| 0 <= i < r.len() ==> is_max(ts, #[trigger] r[i])
    &&& strictly_ranked(r)
    &&& forall|i: int, j: int|
        #![trigger r[i], r[j]]
        0 <= i < j < r.len() ==> !crowds(ts, r[i], r[j])
    &&& forall|s: Seed| #[trigger]
        is_max(ts, s) ==> r.contains(s) || shadowed(ts, r, s) || beyond(r, k, s)
}

/// A stronger seed of `r` is the same event as `s`.
pub open spec fn shadowed(ts: Seq<FrameView>, r: Seq<Seed>, s: Seed) -> bool {
    exists|i: int| 0 <= i < r.len() && before(#[trigger] r[i], s) && crowds(ts, r[i], s)
}

/// `r` is full, and `s` ranks after all of it.
pub open spec fn beyond(r: Seq<Seed>, k: int, s: Seed) -> bool {
    r.len() == k && (k > 0 ==> before(r.last(), s))
}

// ---------------------------------------------------------------------------------------------
// lemmas
// ---------------------------------------------------------------------------------------------

proof fn lemma_place(s: Seq<Seed>, x: Seed)
    ensures
        place(s, x).len() == s.len() + 1,
        forall|y: Seed| #[trigger] place(s, x).contains(y) <==> s.contains(y) || y == x,
        in_order(s) ==> in_order(place(s, x)),
        s.no_duplicates() && !s.contains(x) ==> place(s, x).no_duplicates(),
    decreases s.len(),
{
    let p = place(s, x);
    if s.len() == 0 || !before(x, s.last()) {
        assert(p == s.push(x));
        assert forall|y: Seed| #[trigger] p.contains(y) <==> s.contains(y) || y == x by {
            assert(p[s.len() as int] == x);
            if s.contains(y) {
                let i = choose|i: int| 0 <= i < s.len() && s[i] == y;
                assert(p[i] == y);
            }
            if p.contains(y) {
                let i = choose|i: int| 0 <= i < p.len() && p[i] == y;
                if i < s.len() {
                    assert(s[i] == y);
                }
            }
        }
        if in_order(s) {
            assert forall|i: int, j: int| #![trigger p[i], p[j]] 0 <= i < j < p.len() implies !before(
                p[j],
                p[i],
            ) by {
                if j == s.len() {
                    if i < s.len() - 1 {
                        assert(!before(s.last(), s[i]));
                        lemma_before_total(s[i], s.last());
                        lemma_before_total(x, s.last());
                    }
                } else {
                    assert(!before(s[j], s[i]));
                }
            }
        }
    } else {
        let t = s.drop_last();
        let q = place(t, x);
        lemma_place(t, x);
        assert(p == q.push(s.last()));
        assert forall|y: Seed| #[trigger] p.contains(y) <==> s.contains(y) || y == x by {
            if s.contains(y) {
                let i = choose|i: int| 0 <= i < s.len() && s[i] == y;
                if i < s.len() - 1 {
                    assert(t[i] == y);
                    assert(t.contains(y));
                    assert(q.contains(y));
                    let m = choose|m: int| 0 <= m < q.len() && q[m] == y;
                    assert(p[m] == y);
                } else {
                    assert(p[q.len() as int] == y);
                }
            }
            if y == x {
                assert(q.contains(x));
                let m = choose|m: int| 0 <= m < q.len() && q[m] == x;
                assert(p[m] == x);
            }
            if p.contains(y) {
                let i = choose|i: int| 0 <= i < p.len() && p[i] == y;
                if i < q.len() {
                    assert(q[i] == y);
                    assert(q.contains(y));
                    if t.contains(y) {
                        let m = choose|m: int| 0 <= m < t.len() && t[m] == y;
                        assert(s[m] == y);
                    }
                } else {
                    assert(s[s.len() - 1] == y);
                }
            }
        }
        if in_order(s) {
            assert(in_order(t)) by {
                assert forall|i: int, j: int|
                    #![trigger t[i], t[j]]
                    0 <= i < j < t.len() implies !before(t[j], t[i]) by {
                    assert(!before(s[j], s[i]));
                }
            }
            assert forall|i: int, j: int| #![trigger p[i], p[j]] 0 <= i < j < p.len() implies !before(
                p[j],
                p[i],
            ) by {
                if j < q.len() {
                    assert(!before(q[j], q[i]));
                } else {
                    assert(q.contains(q[i]));
                    assert(p[i] == q[i]);
                    if q[i] == x {
                        lemma_before_total(x, s.last());
                    } else {
                        assert(t.contains(q[i]));
                        let m = choose|m: int| 0 <= m < t.len() && t[m] == q[i];
                        assert(s[m] == q[i]);
                        assert(!before(s[s.len() - 1], s[m]));
                    }
                }
            }
        }
        if s.no_duplicates() && !s.contains(x) {
            assert(!t.contains(x)) by {
                if t.contains(x) {
                    let m = choose|m: int| 0 <= m < t.len() && t[m] == x;
                    assert(s[m] == x);
                }
            }
            assert(!q.contains(s.last())) by {
                if q.contains(s.last()) {
                    assert(s.contains(s.last())) by {
                        assert(s[s.len() - 1] == s.last());
                    }
                    assert(t.contains(s.last()));
                    let m = choose|m: int| 0 <= m < t.len() && t[m] == s.last();
                    assert(s[m] == s[s.len() - 1]);
                }
            }
            assert(p.no_duplicates()) by {
                assert forall|i: int, j: int| 0 <= i < p.len() && 0 <= j < p.len() && i != j implies p[i]
                    != p[j] by {
                    if i < q.len() && j < q.len() {
                        assert(q[i] != q[j]);
                    } else if i < q.len() {
                        assert(q.contains(q[i]));
                    } else {
                        assert(q.contains(q[j]));
                    }
                }
            }
        }
    }
}

/// The rank order is a strict order, total on seeds of different frames.
proof fn lemma_before_total(a: Seed, b: Seed)
    ensures
        before(a, b) ==> !before(b, a),
        !before(a, b) && !before(b, a) ==> a.energy == b.energy && a.block == b.block && a.frame
            == b.frame,
        forall|c: Seed| before(a, b) && #[trigger] before(b, c) ==> before(a, c),
        forall|c: Seed| before(a, b) && !(#[trigger] before(c, b)) ==> before(a, c),
        forall|c: Seed| !before(b, a) && #[trigger] before(b, c) ==> before(a, c),
{
    assert(a.energy.total() == b.energy.total() ==> a.energy == b.energy);
    assert forall|c: Seed| before(a, b) && !(#[trigger] before(c, b)) implies before(a, c) by {
        assert(c.energy.total() == b.energy.total() ==> c.energy == b.energy);
    }
    assert forall|c: Seed| !before(b, a) && #[trigger] before(b, c) implies before(a, c) by {
        assert(c.energy.total() == b.energy.total() ==> c.energy == b.energy);
    }
}

proof fn lemma_ranked(s: Seq<Seed>)
    ensures
        ranked(s).len() == s.len(),
        forall|y: Seed| #[trigger] ranked(s).contains(y) <==> s.contains(y),
        in_order(ranked(s)),
        s.no_duplicates() ==> ranked(s).no_duplicates(),
    decreases s.len(),
{
    if s.len() > 0 {
        let t = s.drop_last();
        lemma_ranked(t);
        lemma_place(ranked(t), s.last());
        assert forall|y: Seed| #[trigger] ranked(s).contains(y) <==> s.contains(y) by {
            if s.contains(y) {
                let i = choose|i: int| 0 <= i < s.len() && s[i] == y;
                if i < t.len() {
                    assert(t[i] == y);
                    assert(t.contains(y));
                }
            }
            if t.contains(y) {
                let i = choose|i: int| 0 <= i < t.len() && t[i] == y;
                assert(s[i] == y);
            }
            assert(s[s.len() - 1] == s.last());
        }
        if s.no_duplicates() {
            assert(!ranked(t).contains(s.last())) by {
                if t.contains(s.last()) {
                    let i = choose|i: int| 0 <= i < t.len() && t[i] == s.last();
                    assert(s[i] == s[s.len() - 1]);
                }
            }
            assert(t.no_duplicates());
        }
    }
}

/// Where `x` goes in a ranked run.
spec fn slot(s: Seq<Seed>, x: Seed) -> int
    decreases s.len(),
{
    if s.len() == 0 || !before(x, s.last()) {
        s.len() as int
    } else {
        slot(s.drop_last(), x)
    }
}

proof fn lemma_slot(s: Seq<Seed>, x: Seed)
    ensures
        0 <= slot(s, x) <= s.len(),
        place(s, x) == s.insert(slot(s, x), x),
        forall|j: int| slot(s, x) <= j < s.len() ==> before(x, #[trigger] s[j]),
        in_order(s) ==> forall|j: int| 0 <= j < slot(s, x) ==> !before(x, #[trigger] s[j]),
    decreases s.len(),
{
    if s.len() == 0 || !before(x, s.last()) {
        assert(s.insert(s.len() as int, x) =~= s.push(x));
        if in_order(s) {
            assert forall|j: int| 0 <= j < s.len() implies !before(x, #[trigger] s[j]) by {
                if j < s.len() - 1 {
                    assert(!before(s[s.len() - 1], s[j]));
                    lemma_before_total(x, s[j]);
                    if before(x, s[j]) {
                        assert(before(x, s.last()));
                    }
                }
            }
        }
    } else {
        let t = s.drop_last();
        lemma_slot(t, x);
        assert(t.insert(slot(t, x), x).push(s.last()) =~= s.insert(slot(t, x), x));
        assert forall|j: int| slot(s, x) <= j < s.len() implies before(x, #[trigger] s[j]) by {
            if j < t.len() {
                assert(before(x, t[j]));
            }
        }
        if in_order(s) {
            assert(in_order(t)) by {
                assert forall|i: int, j: int|
                    #![trigger t[i], t[j]]
                    0 <= i < j < t.len() implies !before(t[j], t[i]) by {
                    assert(!before(s[j], s[i]));
                }
            }
            assert forall|j: int| 0 <= j < slot(s, x) implies !before(x, #[trigger] s[j]) by {
                assert(!before(x, t[j]));
            }
        }
    }
}

/// A run found by its slots is the one [`place`] gives.
proof fn lemma_place_at(s: Seq<Seed>, x: Seed, i: int)
    requires
        0 <= i <= s.len(),
        forall|j: int| i <= j < s.len() ==> before(x, #[trigger] s[j]),
        i > 0 ==> !before(x, s[i - 1]),
    ensures
        slot(s, x) == i,
        place(s, x) == s.insert(i, x),
    decreases s.len(),
{
    lemma_slot(s, x);
    if i < s.len() {
        lemma_place_at(s.drop_last(), x, i);
    }
}

/// Keeping only the first `cap` between placements changes none of the first `cap`.
proof fn lemma_place_first(s: Seq<Seed>, x: Seed, cap: int)
    requires
        in_order(s),
        0 <= cap,
    ensures
        first(place(first(s, cap), x), cap) == first(place(s, x), cap),
{
    if cap < s.len() {
        let t = s.take(cap);
        lemma_slot(s, x);
        let i = slot(s, x);
        if i <= cap {
            assert forall|j: int| i <= j < t.len() implies before(x, #[trigger] t[j]) by {
                assert(before(x, s[j]));
            }
            if i > 0 {
                assert(!before(x, s[i - 1]));
            }
            lemma_place_at(t, x, i);
            assert(t.insert(i, x).take(cap) =~= s.insert(i, x).take(cap));
        } else {
            if cap > 0 {
                assert(!before(x, s[cap - 1]));
            }
            lemma_place_at(t, x, cap);
            assert(t.insert(cap, x).take(cap) =~= t);
            assert(s.insert(i, x).take(cap) =~= t);
        }
    }
}

/// A full list stays as it is whatever follows.
proof fn lemma_keep_prefix(ts: Seq<FrameView>, s: Seq<Seed>, m: int, k: int)
    requires
        0 <= m <= s.len(),
        keep(ts, s.take(m), k).len() >= k,
    ensures
        keep(ts, s, k) == keep(ts, s.take(m), k),
    decreases s.len(),
{
    if m < s.len() {
        let t = s.drop_last();
        assert(t.take(m) =~= s.take(m));
        lemma_keep_prefix(ts, t, m, k);
    } else {
        assert(s.take(m) =~= s);
    }
}

proof fn lemma_keep_len(ts: Seq<FrameView>, s: Seq<Seed>, k: int)
    requires
        k >= 0,
    ensures
        keep(ts, s, k).len() <= k,
    decreases s.len(),
{
    if s.len() > 0 {
        lemma_keep_len(ts, s.drop_last(), k);
    }
}

proof fn lemma_maxima_len(v: FrameView, n: int)
    requires
        0 <= n,
    ensures
        maxima(v, n).len() <= n,
    decreases n,
{
    if n > 0 {
        lemma_maxima_len(v, n - 1);
    }
}

proof fn lemma_one_table(v: FrameView)
    ensures
        all_maxima(seq![v]) == maxima(v, v.seen.len() as int),
{
    let ts = seq![v];
    assert(ts.drop_last() =~= Seq::<FrameView>::empty());
    assert(all_maxima(ts.drop_last()) =~= Seq::<Seed>::empty());
    assert(all_maxima(ts) =~= maxima(v, v.seen.len() as int));
}

// ---------------------------------------------------------------------------------------------
// the search
// ---------------------------------------------------------------------------------------------

/// Whether `a` ranks before `b`.
fn ranks_before(a: &Seed, b: &Seed) -> (r: bool)
    ensures
        r == before(*a, *b),
{
    proof {
        assert(a.energy.total() == b.energy.total() ==> a.energy == b.energy);
    }
    if b.energy.total_less(a.energy) {
        true
    } else if a.energy.total_less(b.energy) {
        false
    } else if a.block != b.block {
        a.block < b.block
    } else {
        a.frame < b.frame
    }
}

/// Put a seed in its place among the strongest `cap`, dropping whichever is then past them.
fn offer(top: &mut Vec<Seed>, seed: Seed, cap: usize)
    requires
        old(top)@.len() <= cap,
    ensures
        final(top)@ == first(place(old(top)@, seed), cap as int),
{
    let mut i: usize = top.len();
    while i > 0 && ranks_before(&seed, &top[i - 1])
        invariant
            0 <= i <= top@.len(),
            forall|j: int| i <= j < top@.len() ==> before(seed, #[trigger] top@[j]),
        decreases i,
    {
        i -= 1;
    }
    proof {
        lemma_place_at(top@, seed, i as int);
    }
    if i == cap {
        proof {
            assert(top@.insert(i as int, seed).take(cap as int) =~= top@);
        }
        return;
    }
    if top.len() == cap {
        let ghost before_pop = top@;
        let _ = top.pop();
        proof {
            assert(before_pop.insert(i as int, seed).take(cap as int) =~= top@.insert(
                i as int,
                seed,
            ));
        }
    }
    top.insert(i, seed);
}

/// The support length of a block's table, or zero if it has none.
fn support(tables: &[FrameTable<'_>], block: usize) -> (r: usize)
    ensures
        r == support_of(views(tables@), block),
{
    let mut i: usize = 0;
    proof {
        assert(views(tables@).skip(0) =~= views(tables@));
    }
    while i < tables.len()
        invariant
            i <= tables@.len(),
            support_of(views(tables@), block) == support_of(views(tables@).skip(i as int), block),
        decreases tables@.len() - i,
    {
        proof {
            let rest = views(tables@).skip(i as int);
            assert(rest[0] == tables@[i as int]@);
            assert(rest.drop_first() =~= views(tables@).skip(i + 1));
        }
        if tables[i].block == block {
            return tables[i].support_len;
        }
        i += 1;
    }
    0
}

/// [`top_seeds`] over the strongest `cap` local maxima, and whether that many were found.
///
/// Only the strongest few maxima can survive suppression, so only the strongest few are kept while
/// scanning.
pub fn top_seeds_capped(tables: &[FrameTable<'_>], k: usize, cap: usize) -> (r: (Vec<Seed>, bool))
    requires
        all_wf(tables@),
    ensures
        r.0@ == keep(
            views(tables@),
            first(ranked(all_maxima(views(tables@))), cap as int),
            k as int,
        ),
        r.1 == (all_maxima(views(tables@)).len() >= cap),
{
    let ghost ts = views(tables@);
    let mut top: Vec<Seed> = Vec::new();
    let mut i: usize = 0;
    proof {
        assert(ts.take(0) =~= Seq::<FrameView>::empty());
    }
    while i < tables.len()
        invariant
            all_wf(tables@),
            ts == views(tables@),
            i <= tables@.len(),
            top@ == first(ranked(all_maxima(ts.take(i as int))), cap as int),
        decreases tables@.len() - i,
    {
        let t = &tables[i];
        let ghost done = all_maxima(ts.take(i as int));
        assert(tables@[i as int].wf());
        assert(ts[i as int] == t@);
        let len: usize = t.energy.len();
        let mut n: usize = 0;
        proof {
            assert(done + maxima(t@, 0) =~= done);
        }
        while n < len
            invariant
                t.wf(),
                n <= len,
                len == t.energy@.len(),
                top@ == first(ranked(done + maxima(t@, n as int)), cap as int),
            decreases len - n,
        {
            let e = t.masked(n);
            let ghost v = t@;
            let ghost acc = done + maxima(v, n as int);
            assert(v.seen[n as int] == e);
            let is_peak = e.is_finite() && (n == 0 || t.masked(n - 1).lt(e)) && (n + 1 == len
                || t.masked(n + 1).le(e));
            assert(is_peak == peak(v, n as int));
            if is_peak {
                proof {
                    assert(n < t.scanned());
                    assert(n * t.hop <= (t.energy@.len() - 1) * t.hop) by (nonlinear_arith)
                        requires
                            n <= t.energy@.len() - 1,
                    ;
                }
                let seed = Seed {
                    block: t.block,
                    frame: n,
                    bin: t.bin[n] as usize,
                    onset: n * t.hop,
                    energy: e,
                };
                proof {
                    assert(seed == seed_at(v, n as int));
                    lemma_ranked(acc);
                    assert(acc.push(seed).drop_last() =~= acc);
                    assert(acc.push(seed) =~= done + maxima(v, n + 1));
                    lemma_place_first(ranked(acc), seed, cap as int);
                }
                offer(&mut top, seed, cap);
            }
            n += 1;
        }
        proof {
            assert(ts.take(i + 1).drop_last() =~= ts.take(i as int));
            assert(ts.take(i + 1).last() == t@);
        }
        i += 1;
    }
    proof {
        assert(ts.take(ts.len() as int) =~= ts);
        lemma_ranked(all_maxima(ts));
    }
    let saturated = top.len() == cap;

    let mut kept: Vec<Seed> = Vec::new();
    let mut m: usize = 0;
    proof {
        assert(top@.take(0) =~= Seq::<Seed>::empty());
    }
    while m < top.len() && kept.len() < k
        invariant
            ts == views(tables@),
            m <= top@.len(),
            kept@ == keep(ts, top@.take(m as int), k as int),
            kept@.len() <= k,
        decreases top@.len() - m,
    {
        let s = top[m];
        let support = support(tables, s.block);
        let mut is_crowded = false;
        let mut j: usize = 0;
        while j < kept.len()
            invariant
                j <= kept@.len(),
                support == support_of(ts, s.block),
                is_crowded == exists|x: int| 0 <= x < j && crowds(ts, #[trigger] kept@[x], s),
            decreases kept@.len() - j,
        {
            let o = kept[j];
            let d: usize = if o.onset <= s.onset {
                s.onset - o.onset
            } else {
                o.onset - s.onset
            };
            let hit = o.block == s.block && d < support && d < support - d;
            assert(hit == crowds(ts, kept@[j as int], s));
            if hit {
                is_crowded = true;
            }
            j += 1;
        }
        proof {
            assert(top@.take(m + 1).drop_last() =~= top@.take(m as int));
            assert(top@.take(m + 1).last() == s);
            assert(is_crowded == crowded(ts, kept@, s));
        }
        if !is_crowded {
            kept.push(s);
        }
        m += 1;
    }
    proof {
        if kept@.len() >= k {
            lemma_keep_prefix(ts, top@, m as int, k as int);
        } else {
            assert(top@.take(m as int) =~= top@);
        }
    }
    (kept, saturated)
}

/// `std::slice::from_ref`: a slice of length one, holding what the reference points at.
pub assume_specification<T>[ core::slice::from_ref::<T> ](s: &T) -> (r: &[T])
    ensures
        r@ == seq![*s],
;

/// One table's best `k` seeds after suppression, strongest first.
///
/// Suppression can reject any number of maxima, so a capped scan can run out before it has `k`. It
/// cannot then be trusted, and is repeated with twice the cap.
pub fn block_seeds(table: &FrameTable<'_>, k: usize) -> (r: Vec<Seed>)
    requires
        table.wf(),
    ensures
        r@ == selection(seq![table@], k as int),
{
    let mut cap: usize = if k <= 1 {
        64
    } else if k <= usize::MAX / 64 {
        k * 64
    } else {
        usize::MAX
    };
    let one = core::slice::from_ref(table);
    loop
        invariant
            cap >= 1,
            table.wf(),
            one@ == seq![*table],
        decreases usize::MAX - cap,
    {
        proof {
            assert(views(one@) =~= seq![table@]);
            lemma_one_table(table@);
            lemma_maxima_len(table@, table.energy@.len() as int);
            lemma_ranked(all_maxima(seq![table@]));
        }
        let (kept, saturated) = top_seeds_capped(one, k, cap);
        if kept.len() == k || !saturated || cap >= table.energy.len() {
            proof {
                let all = ranked(all_maxima(seq![table@]));
                if cap < all.len() {
                    lemma_keep_prefix(seq![table@], all, cap as int, k as int);
                }
            }
            return kept;
        }
        cap = if cap <= usize::MAX / 2 {
            cap * 2
        } else {
            usize::MAX
        };
    }
}

/// The blocks' own best seeds, found across rayon's pool.
///
/// `ParallelIterator::flat_map_iter` over `par_iter`, gathered by `collect`: what each table's
/// [`block_seeds`] returns, joined in table order.
#[verifier::external_body]
fn by_block_parallel(tables: &[FrameTable<'_>], k: usize) -> (r: Vec<Seed>)
    requires
        all_wf(tables@),
    ensures
        r@ == by_block(views(tables@), k as int),
{
    tables.par_iter().flat_map_iter(|t| block_seeds(t, k)).collect()
}

/// The blocks' own best seeds, one table after another.
fn by_block_serial(tables: &[FrameTable<'_>], k: usize) -> (r: Vec<Seed>)
    requires
        all_wf(tables@),
    ensures
        r@ == by_block(views(tables@), k as int),
{
    let ghost ts = views(tables@);
    let mut out: Vec<Seed> = Vec::new();
    let mut i: usize = 0;
    proof {
        assert(ts.take(0) =~= Seq::<FrameView>::empty());
    }
    while i < tables.len()
        invariant
            all_wf(tables@),
            ts == views(tables@),
            i <= tables@.len(),
            out@ == by_block(ts.take(i as int), k as int),
        decreases tables@.len() - i,
    {
        assert(tables@[i as int].wf());
        let mut own = block_seeds(&tables[i], k);
        proof {
            assert(ts[i as int] == tables@[i as int]@);
            assert(ts.take(i + 1).drop_last() =~= ts.take(i as int));
        }
        out.append(&mut own);
        i += 1;
    }
    proof {
        assert(ts.take(ts.len() as int) =~= ts);
    }
    out
}

/// The best `k` distinct seeds across every block.
///
/// Seeds are suppressed against stronger ones of the *same* block whose onsets are within half a
/// support length. There is deliberately no suppression *across* blocks: two blocks peaking at the
/// same instant propose different envelope shapes for it, which is the choice refinement makes. That
/// is what lets the blocks be searched independently; see [`law_blocks_separately_is_one_scan`].
pub fn top_seeds(tables: &[FrameTable<'_>], k: usize) -> (r: Vec<Seed>)
    requires
        all_wf(tables@),
    ensures
        r@ == first(ranked(by_block(views(tables@), k as int)), k as int),
{
    if k == 0 {
        let none: Vec<Seed> = Vec::new();
        proof {
            lemma_ranked(by_block(views(tables@), 0));
            assert(first(ranked(by_block(views(tables@), 0)), 0) =~= Seq::<Seed>::empty());
        }
        return none;
    }
    let mut frames: usize = 0;
    let mut i: usize = 0;
    while i < tables.len()
        invariant
            i <= tables@.len(),
        decreases tables@.len() - i,
    {
        frames = frames.saturating_add(tables[i].energy.len());
        i += 1;
    }
    let found = if frames >= PARALLEL_SCAN_FRAMES {
        by_block_parallel(tables, k)
    } else {
        by_block_serial(tables, k)
    };
    let mut seeds: Vec<Seed> = Vec::new();
    let mut j: usize = 0;
    proof {
        assert(found@.take(0) =~= Seq::<Seed>::empty());
    }
    while j < found.len()
        invariant
            j <= found@.len(),
            seeds@ == first(ranked(found@.take(j as int)), k as int),
        decreases found@.len() - j,
    {
        proof {
            let done = found@.take(j as int);
            lemma_ranked(done);
            lemma_place_first(ranked(done), found@[j as int], k as int);
            assert(found@.take(j + 1).drop_last() =~= done);
        }
        offer(&mut seeds, found[j], k);
        j += 1;
    }
    proof {
        assert(found@.take(found@.len() as int) =~= found@);
    }
    seeds
}

// ---------------------------------------------------------------------------------------------
// laws
// ---------------------------------------------------------------------------------------------

/// Frame indices are machine integers, as they are in every table that exists.
pub open spec fn indexable(ts: Seq<FrameView>) -> bool {
    forall|i: int| 0 <= i < ts.len() ==> (#[trigger] ts[i]).seen.len() <= usize::MAX
}

proof fn lemma_maxima_members(v: FrameView, n: int)
    requires
        0 <= n <= v.seen.len() <= usize::MAX,
    ensures
        forall|s: Seed| #[trigger]
            maxima(v, n).contains(s) <==> exists|m: int|
                0 <= m < n && #[trigger] peak(v, m) && s == seed_at(v, m),
        maxima(v, n).no_duplicates(),
        forall|s: Seed| #[trigger] maxima(v, n).contains(s) ==> s.block == v.block && s.frame < n,
    decreases n,
{
    if n > 0 {
        lemma_maxima_members(v, n - 1);
        let rest = maxima(v, n - 1);
        let all = maxima(v, n);
        assert forall|s: Seed| #[trigger] all.contains(s) <==> exists|m: int|
            0 <= m < n && #[trigger] peak(v, m) && s == seed_at(v, m) by {
            if all.contains(s) {
                let i = choose|i: int| 0 <= i < all.len() && all[i] == s;
                if i < rest.len() {
                    assert(rest[i] == s);
                    assert(rest.contains(s));
                } else {
                    assert(peak(v, n - 1));
                }
            }
            if exists|m: int| 0 <= m < n && #[trigger] peak(v, m) && s == seed_at(v, m) {
                let m = choose|m: int| 0 <= m < n && #[trigger] peak(v, m) && s == seed_at(v, m);
                if m < n - 1 {
                    assert(rest.contains(s));
                    let i = choose|i: int| 0 <= i < rest.len() && rest[i] == s;
                    assert(all[i] == s);
                } else {
                    assert(all[rest.len() as int] == s);
                }
            }
        }
        if peak(v, n - 1) {
            let x = seed_at(v, n - 1);
            assert(!rest.contains(x));
        }
    }
}

proof fn lemma_all_maxima_members(ts: Seq<FrameView>)
    requires
        indexable(ts),
    ensures
        forall|s: Seed| #[trigger] all_maxima(ts).contains(s) <==> is_max(ts, s),
        distinct_blocks(ts) ==> all_maxima(ts).no_duplicates(),
    decreases ts.len(),
{
    let all = all_maxima(ts);
    if ts.len() == 0 {
        assert forall|s: Seed| #[trigger] all.contains(s) <==> is_max(ts, s) by {}
    } else {
        let init = ts.drop_last();
        let v = ts.last();
        let rest = all_maxima(init);
        let own = maxima(v, v.seen.len() as int);
        assert(indexable(init)) by {
            assert forall|i: int| 0 <= i < init.len() implies (#[trigger] init[i]).seen.len()
                <= usize::MAX by {
                assert(ts[i].seen.len() <= usize::MAX);
            }
        }
        assert(ts[ts.len() - 1].seen.len() <= usize::MAX);
        lemma_all_maxima_members(init);
        lemma_maxima_members(v, v.seen.len() as int);
        assert forall|s: Seed| #[trigger] all.contains(s) <==> is_max(ts, s) by {
            if all.contains(s) {
                let i = choose|i: int| 0 <= i < all.len() && all[i] == s;
                if i < rest.len() {
                    assert(rest[i] == s);
                    assert(rest.contains(s));
                    let (j, n) = choose|j: int, n: int|
                        0 <= j < init.len() && #[trigger] peak(init[j], n) && s == seed_at(init[j], n);
                    assert(peak(ts[j], n));
                } else {
                    assert(own[i - rest.len()] == s);
                    assert(own.contains(s));
                    let n = choose|n: int|
                        0 <= n < v.seen.len() && #[trigger] peak(v, n) && s == seed_at(v, n);
                    assert(peak(ts[ts.len() - 1], n));
                }
            }
            if is_max(ts, s) {
                let (j, n) = choose|j: int, n: int|
                    0 <= j < ts.len() && #[trigger] peak(ts[j], n) && s == seed_at(ts[j], n);
                if j < init.len() {
                    assert(peak(init[j], n));
                    assert(rest.contains(s));
                    let i = choose|i: int| 0 <= i < rest.len() && rest[i] == s;
                    assert(all[i] == s);
                } else {
                    assert(own.contains(s));
                    let i = choose|i: int| 0 <= i < own.len() && own[i] == s;
                    assert(all[rest.len() + i] == s);
                }
            }
        }
        if distinct_blocks(ts) {
            assert(distinct_blocks(init)) by {
                assert forall|i: int, j: int|
                    #![trigger init[i], init[j]]
                    0 <= i < j < init.len() implies init[i].block != init[j].block by {
                    assert(ts[i].block != ts[j].block);
                }
            }
            assert forall|i: int, j: int| 0 <= i < rest.len() && 0 <= j < own.len() implies rest[i]
                != own[j] by {
                assert(rest.contains(rest[i]));
                assert(own.contains(own[j]));
                let (b, n) = choose|b: int, n: int|
                    0 <= b < init.len() && #[trigger] peak(init[b], n) && rest[i] == seed_at(
                        init[b],
                        n,
                    );
                assert(ts[b].block != ts[ts.len() - 1].block);
            }
            assert(all.no_duplicates()) by {
                assert forall|i: int, j: int|
                    0 <= i < all.len() && 0 <= j < all.len() && i != j implies all[i] != all[j] by {
                    if i < rest.len() && j < rest.len() {
                        assert(rest[i] != rest[j]);
                    } else if i >= rest.len() && j >= rest.len() {
                        assert(own[i - rest.len()] != own[j - rest.len()]);
                    } else if i < rest.len() {
                        assert(rest[i] != own[j - rest.len()]);
                    } else {
                        assert(rest[j] != own[i - rest.len()]);
                    }
                }
            }
        }
    }
}

/// Two maxima at one block and frame are one maximum.
proof fn lemma_same_place(ts: Seq<FrameView>, a: Seed, b: Seed)
    requires
        indexable(ts),
        distinct_blocks(ts),
        is_max(ts, a),
        is_max(ts, b),
        a.block == b.block,
        a.frame == b.frame,
    ensures
        a == b,
{
    let (i, n) = choose|i: int, n: int|
        0 <= i < ts.len() && #[trigger] peak(ts[i], n) && a == seed_at(ts[i], n);
    let (j, m) = choose|j: int, m: int|
        0 <= j < ts.len() && #[trigger] peak(ts[j], m) && b == seed_at(ts[j], m);
    assert(ts[i].seen.len() <= usize::MAX);
    assert(ts[j].seen.len() <= usize::MAX);
    if i < j {
        assert(ts[i].block != ts[j].block);
    } else if j < i {
        assert(ts[j].block != ts[i].block);
    }
}

/// A run of different maxima in order is strictly ranked.
proof fn lemma_strict(ts: Seq<FrameView>, s: Seq<Seed>)
    requires
        indexable(ts),
        distinct_blocks(ts),
        in_order(s),
        s.no_duplicates(),
        forall|y: Seed| #[trigger] s.contains(y) ==> is_max(ts, y),
    ensures
        strictly_ranked(s),
{
    assert forall|i: int, j: int| #![trigger s[i], s[j]] 0 <= i < j < s.len() implies before(
        s[i],
        s[j],
    ) by {
        assert(s.contains(s[i]) && s.contains(s[j]));
        lemma_before_total(s[i], s[j]);
        if !before(s[i], s[j]) {
            assert(!before(s[j], s[i]));
            lemma_same_place(ts, s[i], s[j]);
        }
    }
}

/// What suppression keeps of a strictly ranked run is a selection from it.
proof fn lemma_keep(ts: Seq<FrameView>, s: Seq<Seed>, k: int)
    requires
        k >= 0,
        strictly_ranked(s),
    ensures
        ({
            let r = keep(ts, s, k);
            &&& r.len() <= k
            &&& strictly_ranked(r)
            &&& forall|y: Seed| #[trigger] r.contains(y) ==> s.contains(y)
            &&& forall|i: int, j: int|
                #![trigger r[i], r[j]]
                0 <= i < j < r.len() ==> !crowds(ts, r[i], r[j])
            &&& forall|y: Seed| #[trigger]
                s.contains(y) ==> r.contains(y) || shadowed(ts, r, y) || beyond(r, k, y)
        }),
    decreases s.len(),
{
    let r = keep(ts, s, k);
    if s.len() > 0 {
        let t = s.drop_last();
        let q = keep(ts, t, k);
        let x = s.last();
        assert(strictly_ranked(t)) by {
            assert forall|i: int, j: int| #![trigger t[i], t[j]] 0 <= i < j < t.len() implies before(
                t[i],
                t[j],
            ) by {
                assert(before(s[i], s[j]));
            }
        }
        lemma_keep(ts, t, k);
        assert forall|y: Seed| #[trigger] t.contains(y) implies s.contains(y) && before(y, x) by {
            let m = choose|m: int| 0 <= m < t.len() && t[m] == y;
            assert(s[m] == y);
            assert(before(s[m], s[s.len() - 1]));
        }
        assert forall|y: Seed| #[trigger] s.contains(y) implies t.contains(y) || y == x by {
            let m = choose|m: int| 0 <= m < s.len() && s[m] == y;
            if m < t.len() {
                assert(t[m] == y);
            }
        }
        assert(s.contains(x)) by {
            assert(s[s.len() - 1] == x);
        }
        assert forall|i: int| 0 <= i < q.len() implies before(#[trigger] q[i], x) by {
            assert(q.contains(q[i]));
        }
        if q.len() >= k {
            assert forall|y: Seed| #[trigger] s.contains(y) implies r.contains(y) || shadowed(
                ts,
                r,
                y,
            ) || beyond(r, k, y) by {
                if y == x {
                    assert(beyond(r, k, y));
                }
            }
        } else if crowded(ts, q, x) {
            let i = choose|i: int| 0 <= i < q.len() && crowds(ts, #[trigger] q[i], x);
            assert(shadowed(ts, r, x)) by {
                assert(before(r[i], x));
            }
        } else {
            assert(r == q.push(x));
            assert forall|y: Seed| #[trigger] r.contains(y) implies s.contains(y) by {
                let m = choose|m: int| 0 <= m < r.len() && r[m] == y;
                if m < q.len() {
                    assert(q[m] == y);
                    assert(q.contains(y));
                }
            }
            assert forall|i: int, j: int| #![trigger r[i], r[j]] 0 <= i < j < r.len() implies before(
                r[i],
                r[j],
            ) && !crowds(ts, r[i], r[j]) by {
                if j < q.len() {
                    assert(before(q[i], q[j]));
                } else {
                    assert(before(q[i], x));
                    assert(!crowds(ts, q[i], x));
                }
            }
            assert forall|y: Seed| #[trigger] s.contains(y) implies r.contains(y) || shadowed(
                ts,
                r,
                y,
            ) || beyond(r, k, y) by {
                if y == x {
                    assert(r[q.len() as int] == x);
                } else {
                    assert(t.contains(y));
                    if q.contains(y) {
                        let m = choose|m: int| 0 <= m < q.len() && q[m] == y;
                        assert(r[m] == y);
                    } else if shadowed(ts, q, y) {
                        let m = choose|m: int|
                            0 <= m < q.len() && before(#[trigger] q[m], y) && crowds(ts, q[m], y);
                        assert(r[m] == q[m]);
                        assert(before(r[m], y));
                    }
                }
            }
        }
    }
}

/// One scan in rank order, suppressing as it goes, gives the best `k` distinct seeds.
pub proof fn law_selection(ts: Seq<FrameView>, k: int)
    requires
        indexable(ts),
        distinct_blocks(ts),
        k >= 0,
    ensures
        is_selection(ts, k, selection(ts, k)),
{
    let all = all_maxima(ts);
    let s = ranked(all);
    lemma_all_maxima_members(ts);
    lemma_ranked(all);
    lemma_strict(ts, s);
    lemma_keep(ts, s, k);
    let r = selection(ts, k);
    assert forall|i: int| 0 <= i < r.len() implies is_max(ts, #[trigger] r[i]) by {
        assert(r.contains(r[i]));
        assert(s.contains(r[i]));
    }
    assert forall|y: Seed| #[trigger] is_max(ts, y) implies r.contains(y) || shadowed(ts, r, y)
        || beyond(r, k, y) by {
        assert(all.contains(y));
        assert(s.contains(y));
    }
}

/// Two selections that agree on their first `n - 1` seeds agree on the next.
proof fn lemma_same_prefix(ts: Seq<FrameView>, k: int, a: Seq<Seed>, b: Seq<Seed>, n: int)
    requires
        is_selection(ts, k, a),
        is_selection(ts, k, b),
        0 <= n <= a.len(),
    ensures
        n <= b.len(),
        forall|i: int| 0 <= i < n ==> #[trigger] a[i] == b[i],
    decreases n,
{
    if n > 0 {
        lemma_same_prefix(ts, k, a, b, n - 1);
        let s = a[n - 1];
        assert(is_max(ts, s));
        // Nothing of `b` past the common prefix can rank before `s`.
        if n - 1 < b.len() && before(b[n - 1], s) {
            let t = b[n - 1];
            assert(is_max(ts, t));
            if a.contains(t) {
                let m = choose|m: int| 0 <= m < a.len() && a[m] == t;
                if m < n - 1 {
                    assert(b[m] == t);
                    assert(before(b[m], b[n - 1]));
                } else if m > n - 1 {
                    assert(before(a[n - 1], a[m]));
                    lemma_before_total(s, t);
                } else {
                    lemma_before_total(s, s);
                }
                assert(false);
            } else if shadowed(ts, a, t) {
                let i = choose|i: int|
                    0 <= i < a.len() && before(#[trigger] a[i], t) && crowds(ts, a[i], t);
                if i < n - 1 {
                    assert(b[i] == a[i]);
                    assert(!crowds(ts, b[i], b[n - 1]));
                } else {
                    lemma_before_total(a[i], t);
                    assert(before(a[i], s));
                    if i > n - 1 {
                        assert(before(a[n - 1], a[i]));
                    }
                    lemma_before_total(a[i], s);
                }
                assert(false);
            } else {
                lemma_before_total(a.last(), t);
                assert(before(a.last(), s));
                if a.len() > n {
                    assert(before(a[n - 1], a[a.len() - 1]));
                }
                lemma_before_total(a.last(), s);
                assert(false);
            }
        }
        if b.contains(s) {
            let j = choose|j: int| 0 <= j < b.len() && b[j] == s;
            if j < n - 1 {
                assert(a[j] == s);
                assert(before(a[j], a[n - 1]));
                lemma_before_total(s, s);
            } else if j > n - 1 {
                assert(before(b[n - 1], b[j]));
            }
        } else if shadowed(ts, b, s) {
            let i = choose|i: int|
                0 <= i < b.len() && before(#[trigger] b[i], s) && crowds(ts, b[i], s);
            if i < n - 1 {
                assert(a[i] == b[i]);
                assert(!crowds(ts, a[i], a[n - 1]));
            } else if i > n - 1 {
                assert(before(b[n - 1], b[i]));
                lemma_before_total(b[n - 1], b[i]);
            }
        } else {
            if b.len() > n {
                assert(before(b[n - 1], b[b.len() - 1]));
                lemma_before_total(b[n - 1], b.last());
            }
        }
    }
}

/// There is only one way to choose the best `k` distinct seeds.
pub proof fn law_selection_is_unique(ts: Seq<FrameView>, k: int, a: Seq<Seed>, b: Seq<Seed>)
    requires
        is_selection(ts, k, a),
        is_selection(ts, k, b),
    ensures
        a == b,
{
    lemma_same_prefix(ts, k, a, b, a.len() as int);
    lemma_same_prefix(ts, k, b, a, b.len() as int);
    assert(a =~= b);
}

pub proof fn lemma_support_of(ts: Seq<FrameView>, i: int)
    requires
        distinct_blocks(ts),
        0 <= i < ts.len(),
    ensures
        support_of(ts, ts[i].block) == ts[i].support_len,
    decreases ts.len(),
{
    if i > 0 {
        let rest = ts.drop_first();
        assert(ts[0].block != ts[i].block);
        assert(rest[i - 1] == ts[i]);
        assert forall|a: int, b: int| #![trigger rest[a], rest[b]] 0 <= a < b < rest.len() implies rest[a].block
            != rest[b].block by {
            assert(ts[a + 1].block != ts[b + 1].block);
        }
        lemma_support_of(rest, i - 1);
    }
}

/// One table's selection, seen from all the tables.
proof fn lemma_own_selection(ts: Seq<FrameView>, i: int, k: int)
    requires
        indexable(ts),
        distinct_blocks(ts),
        0 <= i < ts.len(),
        k >= 0,
    ensures
        is_selection(seq![ts[i]], k, selection(seq![ts[i]], k)),
        forall|s: Seed| #[trigger]
            is_max(seq![ts[i]], s) <==> is_max(ts, s) && s.block == ts[i].block,
        forall|a: Seed, b: Seed|
            b.block == ts[i].block ==> (#[trigger] crowds(seq![ts[i]], a, b) <==> crowds(ts, a, b)),
        forall|s: Seed| #[trigger]
            selection(seq![ts[i]], k).contains(s) ==> is_max(ts, s) && s.block == ts[i].block,
{
    let one = seq![ts[i]];
    assert(ts[i].seen.len() <= usize::MAX);
    assert(indexable(one));
    law_selection(one, k);
    lemma_support_of(ts, i);
    lemma_support_of(one, 0);
    assert forall|s: Seed| #[trigger] is_max(one, s) <==> is_max(ts, s) && s.block == ts[i].block by {
        if is_max(one, s) {
            let (j, n) = choose|j: int, n: int|
                0 <= j < one.len() && #[trigger] peak(one[j], n) && s == seed_at(one[j], n);
            assert(peak(ts[i], n));
        }
        if is_max(ts, s) && s.block == ts[i].block {
            let (j, n) = choose|j: int, n: int|
                0 <= j < ts.len() && #[trigger] peak(ts[j], n) && s == seed_at(ts[j], n);
            if j < i {
                assert(ts[j].block != ts[i].block);
            } else if i < j {
                assert(ts[i].block != ts[j].block);
            }
            assert(peak(one[0], n));
        }
    }
    let r = selection(one, k);
    assert forall|s: Seed| #[trigger] r.contains(s) implies is_max(ts, s) && s.block == ts[i].block by {
        let m = choose|m: int| 0 <= m < r.len() && r[m] == s;
        assert(is_max(one, r[m]));
    }
}

#[verifier::spinoff_prover]
#[verifier::rlimit(40)]
proof fn lemma_by_block(ts: Seq<FrameView>, k: int)
    requires
        indexable(ts),
        distinct_blocks(ts),
        k >= 0,
    ensures
        by_block(ts, k).no_duplicates(),
        forall|s: Seed| #[trigger] by_block(ts, k).contains(s) ==> is_max(ts, s),
        forall|i: int, s: Seed|
            0 <= i < ts.len() && selection(seq![ts[i]], k).contains(s) ==> #[trigger] by_block(
                ts,
                k,
            ).contains(s) || #[trigger] ts[i].block != s.block,
        forall|i: int, s: Seed|
            0 <= i < ts.len() && #[trigger] by_block(ts, k).contains(s) && #[trigger] ts[i].block
                == s.block ==> selection(seq![ts[i]], k).contains(s),
    decreases ts.len(),
{
    let all = by_block(ts, k);
    if ts.len() > 0 {
        let init = ts.drop_last();
        let last = ts.len() - 1;
        let rest = by_block(init, k);
        let own = selection(seq![ts.last()], k);
        assert(indexable(init)) by {
            assert forall|i: int| 0 <= i < init.len() implies (#[trigger] init[i]).seen.len()
                <= usize::MAX by {
                assert(ts[i].seen.len() <= usize::MAX);
            }
        }
        assert(distinct_blocks(init)) by {
            assert forall|i: int, j: int|
                #![trigger init[i], init[j]]
                0 <= i < j < init.len() implies init[i].block != init[j].block by {
                assert(ts[i].block != ts[j].block);
            }
        }
        lemma_by_block(init, k);
        lemma_own_selection(ts, last, k);
        lemma_strict_no_duplicates(own);
        assert forall|s: Seed| #[trigger] rest.contains(s) implies is_max(ts, s) && s.block
            != ts[last].block by {
            let (j, n) = choose|j: int, n: int|
                0 <= j < init.len() && #[trigger] peak(init[j], n) && s == seed_at(init[j], n);
            assert(peak(ts[j], n));
            assert(ts[j].block != ts[last].block);
        }
        assert forall|s: Seed| #[trigger] all.contains(s) <==> rest.contains(s) || own.contains(s) by {
            if all.contains(s) {
                let m = choose|m: int| 0 <= m < all.len() && all[m] == s;
                if m < rest.len() {
                    assert(rest[m] == s);
                } else {
                    assert(own[m - rest.len()] == s);
                }
            }
            if rest.contains(s) {
                let m = choose|m: int| 0 <= m < rest.len() && rest[m] == s;
                assert(all[m] == s);
            }
            if own.contains(s) {
                let m = choose|m: int| 0 <= m < own.len() && own[m] == s;
                assert(all[rest.len() + m] == s);
            }
        }
        assert(all.no_duplicates()) by {
            assert forall|i: int, j: int|
                0 <= i < all.len() && 0 <= j < all.len() && i != j implies all[i] != all[j] by {
                if i < rest.len() && j < rest.len() {
                    assert(rest[i] != rest[j]);
                } else if i >= rest.len() && j >= rest.len() {
                    assert(own[i - rest.len()] != own[j - rest.len()]);
                } else if i < rest.len() {
                    assert(rest.contains(rest[i]));
                    assert(own.contains(own[j - rest.len()]));
                } else {
                    assert(rest.contains(rest[j]));
                    assert(own.contains(own[i - rest.len()]));
                }
            }
        }
        assert forall|i: int, s: Seed|
            0 <= i < ts.len() && selection(seq![ts[i]], k).contains(s) implies #[trigger] all.contains(
            s,
        ) || #[trigger] ts[i].block != s.block by {
            if i < last {
                assert(init[i] == ts[i]);
                assert(rest.contains(s) || init[i].block != s.block);
            }
        }
        assert forall|i: int, s: Seed|
            0 <= i < ts.len() && #[trigger] all.contains(s) && #[trigger] ts[i].block
                == s.block implies selection(seq![ts[i]], k).contains(s) by {
            if i < last {
                assert(init[i] == ts[i]);
                assert(ts[i].block != ts[last].block);
                assert(rest.contains(s));
            } else {
                assert(own.contains(s));
            }
        }
    }
}

proof fn lemma_strict_no_duplicates(s: Seq<Seed>)
    requires
        strictly_ranked(s),
    ensures
        s.no_duplicates(),
{
    assert forall|i: int, j: int| 0 <= i < s.len() && 0 <= j < s.len() && i != j implies s[i]
        != s[j] by {
        if i < j {
            assert(before(s[i], s[j]));
        } else {
            assert(before(s[j], s[i]));
        }
        lemma_before_total(s[i], s[j]);
    }
}

/// Searching the blocks separately and keeping the best `k` of what they found is exactly one scan
/// over every table in rank order.
pub proof fn law_blocks_separately_is_one_scan(ts: Seq<FrameView>, k: int)
    requires
        indexable(ts),
        distinct_blocks(ts),
        k >= 0,
    ensures
        first(ranked(by_block(ts, k)), k) == selection(ts, k),
{
    let found = by_block(ts, k);
    let order = ranked(found);
    let r = first(order, k);
    lemma_by_block(ts, k);
    lemma_ranked(found);
    lemma_strict(ts, order);
    assert(strictly_ranked(r)) by {
        assert forall|i: int, j: int| #![trigger r[i], r[j]] 0 <= i < j < r.len() implies before(
            r[i],
            r[j],
        ) by {
            assert(before(order[i], order[j]));
        }
    }
    assert forall|i: int| 0 <= i < r.len() implies is_max(ts, #[trigger] r[i]) && found.contains(
        r[i],
    ) by {
        assert(order.contains(order[i]));
    }
    // Whatever a block found is kept, or the list is full of better ones.
    assert forall|s: Seed| #[trigger] found.contains(s) implies r.contains(s) || beyond(r, k, s) by {
        assert(order.contains(s));
        let m = choose|m: int| 0 <= m < order.len() && order[m] == s;
        if m < r.len() {
            assert(r[m] == s);
        } else {
            assert(r.len() == k);
            if k > 0 {
                assert(before(order[k - 1], order[m]));
                assert(r.last() == order[k - 1]);
            }
        }
    }
    assert forall|i: int, j: int| #![trigger r[i], r[j]] 0 <= i < j < r.len() implies !crowds(
        ts,
        r[i],
        r[j],
    ) by {
        if r[i].block == r[j].block {
            assert(is_max(ts, r[j]));
            let (b, n) = choose|b: int, n: int|
                0 <= b < ts.len() && #[trigger] peak(ts[b], n) && r[j] == seed_at(ts[b], n);
            let own = selection(seq![ts[b]], k);
            lemma_own_selection(ts, b, k);
            assert(ts[b].block == r[j].block);
            assert(own.contains(r[i]) && own.contains(r[j]));
            let x = choose|x: int| 0 <= x < own.len() && own[x] == r[i];
            let y = choose|y: int| 0 <= y < own.len() && own[y] == r[j];
            lemma_before_total(r[i], r[j]);
            if y < x {
                assert(before(own[y], own[x]));
            }
            assert(before(r[i], r[j]));
            assert(x < y) by {
                if x == y {
                    lemma_before_total(r[i], r[i]);
                }
            }
            assert(!crowds(seq![ts[b]], own[x], own[y]));
        }
    }
    assert forall|s: Seed| #[trigger] is_max(ts, s) implies r.contains(s) || shadowed(ts, r, s)
        || beyond(r, k, s) by {
        let (b, n) = choose|b: int, n: int|
            0 <= b < ts.len() && #[trigger] peak(ts[b], n) && s == seed_at(ts[b], n);
        let own = selection(seq![ts[b]], k);
        lemma_own_selection(ts, b, k);
        assert(ts[b].block == s.block);
        assert(is_max(seq![ts[b]], s));
        if own.contains(s) {
            assert(found.contains(s));
        } else if shadowed(seq![ts[b]], own, s) {
            let x = choose|x: int|
                0 <= x < own.len() && before(#[trigger] own[x], s) && crowds(
                    seq![ts[b]],
                    own[x],
                    s,
                );
            assert(own.contains(own[x]));
            assert(crowds(ts, own[x], s));
            assert(found.contains(own[x]));
            if r.contains(own[x]) {
                let m = choose|m: int| 0 <= m < r.len() && r[m] == own[x];
                assert(before(r[m], s));
            } else if k > 0 {
                lemma_before_total(r.last(), own[x]);
            }
        } else {
            assert(own.len() == k);
            if k > 0 {
                lemma_full_block(ts, b, k, s);
            }
        }
    }
    law_selection(ts, k);
    law_selection_is_unique(ts, k, r, selection(ts, k));
}

/// A maximum that a full block left out ranks after all `k` seeds kept overall.
proof fn lemma_full_block(ts: Seq<FrameView>, b: int, k: int, s: Seed)
    requires
        indexable(ts),
        distinct_blocks(ts),
        k > 0,
        0 <= b < ts.len(),
        selection(seq![ts[b]], k).len() == k,
        before(selection(seq![ts[b]], k).last(), s),
    ensures
        beyond(first(ranked(by_block(ts, k)), k), k, s),
{
    let found = by_block(ts, k);
    let order = ranked(found);
    let r = first(order, k);
    let own = selection(seq![ts[b]], k);
    lemma_by_block(ts, k);
    lemma_ranked(found);
    lemma_strict(ts, order);
    lemma_own_selection(ts, b, k);
    // The block's `k` seeds are `k` places in the ranking, so its last is no earlier than place
    // `k - 1`.
    lemma_places(order, own, k);
    let m = choose|m: int| k - 1 <= m < order.len() && order[m] == own.last();
    assert(r.last() == order[k - 1]);
    if m > k - 1 {
        assert(before(order[k - 1], order[m]));
        lemma_before_total(order[k - 1], order[m]);
    }
}

/// A strictly ranked run inside another: its `n`th seed is no earlier there than place `n`.
proof fn lemma_places(order: Seq<Seed>, own: Seq<Seed>, n: int)
    requires
        strictly_ranked(order),
        strictly_ranked(own),
        0 < n <= own.len(),
        forall|i: int| 0 <= i < own.len() ==> order.contains(#[trigger] own[i]),
    ensures
        exists|m: int| n - 1 <= m < order.len() && order[m] == own[n - 1],
    decreases n,
{
    assert(order.contains(own[n - 1]));
    let m = choose|m: int| 0 <= m < order.len() && order[m] == own[n - 1];
    if n > 1 {
        lemma_places(order, own, n - 1);
        let p = choose|p: int| n - 2 <= p < order.len() && order[p] == own[n - 2];
        assert(before(own[n - 2], own[n - 1]));
        if m <= p {
            if m < p {
                assert(before(order[m], order[p]));
            }
            lemma_before_total(order[m], order[p]);
        }
    }
    assert(n - 1 <= m < order.len() && order[m] == own[n - 1]);
}

/// The strongest of the first `n` frames, or `n` itself when none is finite.
spec fn strongest(v: FrameView, n: int) -> int
    decreases n,
{
    if n <= 0 {
        -1
    } else {
        let m = strongest(v, n - 1);
        if v.seen[n - 1].finite() && (m < 0 || before(seed_at(v, n - 1), seed_at(v, m))) {
            n - 1
        } else {
            m
        }
    }
}

proof fn lemma_strongest(v: FrameView, n: int)
    requires
        0 <= n <= v.seen.len() <= usize::MAX,
    ensures
        ({
            let m = strongest(v, n);
            &&& -1 <= m < n
            &&& m >= 0 ==> v.seen[m].finite()
            &&& forall|j: int|
                0 <= j < n && (#[trigger] v.seen[j]).finite() ==> m >= 0 && (j == m || before(
                    seed_at(v, m),
                    seed_at(v, j),
                ))
        }),
    decreases n,
{
    if n > 0 {
        lemma_strongest(v, n - 1);
        let p = strongest(v, n - 1);
        let m = strongest(v, n);
        assert forall|j: int| 0 <= j < n && (#[trigger] v.seen[j]).finite() implies m >= 0 && (j
            == m || before(seed_at(v, m), seed_at(v, j))) by {
            if j < n - 1 {
                if m == n - 1 && p >= 0 {
                    lemma_before_total(seed_at(v, m), seed_at(v, p));
                }
            } else if m != n - 1 {
                lemma_before_total(seed_at(v, m), seed_at(v, n - 1));
            }
        }
    }
}

/// Negative zero, which compares equal to zero and ranks below it.
pub open spec fn is_negative_zero(d: Double) -> bool {
    d.negative() && d.magnitude() == 0
}

/// What the scan sees where there is nothing to see.
pub open spec fn masked_out(d: Double) -> bool {
    d == (Double { bits: NEG_INFINITY })
}

/// Every frame shows a finite energy or is masked, as it does in every table that exists.
pub open spec fn masked_or_finite(ts: Seq<FrameView>) -> bool {
    forall|i: int, n: int|
        0 <= i < ts.len() && 0 <= n < ts[i].seen.len() ==> masked_out(#[trigger] ts[i].seen[n])
            || ts[i].seen[n].finite()
}

/// The views of real tables are indexable, and show finite energies or none.
pub proof fn lemma_views(tables: Seq<FrameTable>)
    ensures
        indexable(views(tables)),
        masked_or_finite(views(tables)),
{
    let ts = views(tables);
    assert forall|i: int| 0 <= i < ts.len() implies (#[trigger] ts[i]).seen.len() <= usize::MAX by {
        assert(ts[i] == tables[i]@);
        assert(tables[i].energy.len() == tables[i].energy@.len());
    }
    assert forall|i: int, n: int| 0 <= i < ts.len() && 0 <= n < ts[i].seen.len() implies masked_out(
        #[trigger] ts[i].seen[n],
    ) || ts[i].seen[n].finite() by {
        assert(ts[i] == tables[i]@);
    }
}

/// The first seed is the global argmax: no finite frame of any table is stronger, and of equally
/// strong ones it is the lowest block's, at the lowest frame.
pub proof fn law_first_seed_is_the_argmax(ts: Seq<FrameView>, k: int, i: int, n: int)
    requires
        indexable(ts),
        masked_or_finite(ts),
        distinct_blocks(ts),
        k >= 1,
        forall|j: int, m: int|
            0 <= j < ts.len() && 0 <= m < ts[j].seen.len() ==> !is_negative_zero(
                #[trigger] ts[j].seen[m],
            ),
        0 <= i < ts.len(),
        0 <= n < ts[i].seen.len(),
        ts[i].seen[n].finite(),
    ensures
        selection(ts, k).len() > 0,
        selection(ts, k)[0] == seed_at(ts[i], n) || before(selection(ts, k)[0], seed_at(ts[i], n)),
{
    let v = ts[i];
    let r = selection(ts, k);
    law_selection(ts, k);
    lemma_strongest(v, v.seen.len() as int);
    let m = strongest(v, v.seen.len() as int);
    assert(v.seen[n].finite());
    let s = seed_at(v, m);
    assert(peak(v, m)) by {
        if m > 0 {
            let e = v.seen[m - 1];
            assert(!is_negative_zero(ts[i].seen[m - 1]) && !is_negative_zero(ts[i].seen[m]));
            assert(masked_out(ts[i].seen[m - 1]) || e.finite());
            if e.finite() {
                lemma_before_total(s, seed_at(v, m - 1));
            }
        }
        if m + 1 < v.seen.len() {
            let e = v.seen[m + 1];
            assert(masked_out(ts[i].seen[m + 1]) || e.finite());
            if e.finite() {
                lemma_before_total(s, seed_at(v, m + 1));
            }
        }
    }
    assert(peak(ts[i], m));
    assert(is_max(ts, s));
    if r.contains(s) {
        let x = choose|x: int| 0 <= x < r.len() && r[x] == s;
        if x > 0 {
            assert(before(r[0], r[x]));
        }
    } else if shadowed(ts, r, s) {
        let x = choose|x: int| 0 <= x < r.len() && before(#[trigger] r[x], s) && crowds(ts, r[x], s);
        if x > 0 {
            assert(before(r[0], r[x]));
            lemma_before_total(r[0], r[x]);
        }
    } else if r.len() > 1 {
        assert(before(r[0], r[r.len() - 1]));
        lemma_before_total(r[0], r.last());
    }
    if m != n {
        lemma_before_total(r[0], s);
    }
}

/// Two views of the same tables: one with the dirty frames masked, one with every frame exact, and
/// a bound on each dirty frame that its exact energy does not exceed.
pub open spec fn bounded_by(
    masked: Seq<FrameView>,
    exact: Seq<FrameView>,
    dirty: Seq<Seq<bool>>,
    bound: Seq<Seq<Double>>,
) -> bool {
    &&& exact.len() == masked.len()
    &&& forall|i: int|
        0 <= i < masked.len() ==> {
            &&& (#[trigger] exact[i]).block == masked[i].block
            &&& exact[i].hop == masked[i].hop
            &&& exact[i].support_len == masked[i].support_len
            &&& exact[i].seen.len() == masked[i].seen.len()
        }
    &&& forall|i: int, n: int|
        0 <= i < masked.len() && 0 <= n < masked[i].seen.len() ==> if dirty[i][n] {
            &&& masked_out(masked[i].seen[n])
            &&& (#[trigger] exact[i].seen[n]).at_most(bound[i][n])
        } else {
            &&& exact[i].seen[n] == masked[i].seen[n]
            &&& exact[i].bin[n] == masked[i].bin[n]
        }
}

/// No dirty frame's bound reaches the weakest of `k` seeds, or, short of `k` seeds, no frame is
/// dirty.
pub open spec fn settled(
    masked: Seq<FrameView>,
    dirty: Seq<Seq<bool>>,
    bound: Seq<Seq<Double>>,
    k: int,
    r: Seq<Seed>,
) -> bool {
    forall|i: int, n: int|
        0 <= i < masked.len() && 0 <= n < masked[i].seen.len() && #[trigger] dirty[i][n] ==> r.len()
            == k && !r.last().energy.at_most(bound[i][n])
}

proof fn lemma_same_support(a: Seq<FrameView>, b: Seq<FrameView>, block: usize)
    requires
        a.len() == b.len(),
        forall|i: int|
            0 <= i < a.len() ==> (#[trigger] b[i]).block == a[i].block && b[i].support_len
                == a[i].support_len,
    ensures
        support_of(a, block) == support_of(b, block),
    decreases a.len(),
{
    if a.len() > 0 {
        let (x, y) = (a.drop_first(), b.drop_first());
        assert(b[0].block == a[0].block);
        assert forall|i: int| 0 <= i < x.len() implies (#[trigger] y[i]).block == x[i].block
            && y[i].support_len == x[i].support_len by {
            assert(b[i + 1].block == a[i + 1].block);
        }
        lemma_same_support(x, y, block);
    }
}

/// Seeds read off the clean frames alone are the seeds of the exact tables, once no bound on a
/// hidden frame reaches the weakest of them: a hidden frame can then neither belong in the list nor
/// be the neighbour that hides a real local maximum from it.
pub proof fn law_masking_is_exact(
    masked: Seq<FrameView>,
    exact: Seq<FrameView>,
    dirty: Seq<Seq<bool>>,
    bound: Seq<Seq<Double>>,
    k: int,
    r: Seq<Seed>,
)
    requires
        masked_or_finite(masked),
        masked_or_finite(exact),
        bounded_by(masked, exact, dirty, bound),
        settled(masked, dirty, bound, k, r),
        k >= 1,
        is_selection(masked, k, r),
    ensures
        is_selection(exact, k, r),
{
    assert forall|a: Seed, b: Seed| #[trigger] crowds(exact, a, b) <==> crowds(masked, a, b) by {
        assert forall|i: int| 0 <= i < masked.len() implies (#[trigger] exact[i]).block
            == masked[i].block && exact[i].support_len == masked[i].support_len by {}
        lemma_same_support(masked, exact, b.block);
    }
    assert forall|i: int| 0 <= i < r.len() implies is_max(exact, #[trigger] r[i]) by {
        assert(is_max(masked, r[i]));
        let (j, n) = choose|j: int, n: int|
            0 <= j < masked.len() && #[trigger] peak(masked[j], n) && r[i] == seed_at(masked[j], n);
        lemma_not_weaker(r, i);
        assert(exact[j].block == masked[j].block);
        let e = masked[j].seen[n];
        assert(exact[j].seen[n] == e);
        if n > 0 {
            let x = exact[j].seen[n - 1];
            assert(masked_out(x) || x.finite());
        }
        if n + 1 < exact[j].seen.len() {
            let x = exact[j].seen[n + 1];
            assert(masked_out(x) || x.finite());
        }
        assert(peak(exact[j], n));
        assert(r[i] == seed_at(exact[j], n));
    }
    assert forall|s: Seed| #[trigger] is_max(exact, s) implies r.contains(s) || shadowed(
        exact,
        r,
        s,
    ) || beyond(r, k, s) by {
        let (j, n) = choose|j: int, n: int|
            0 <= j < exact.len() && #[trigger] peak(exact[j], n) && s == seed_at(exact[j], n);
        if !beyond(r, k, s) {
            assert(exact[j].block == masked[j].block);
            let e = exact[j].seen[n];
            if r.len() == k {
                lemma_before_total(r.last(), s);
                assert(r.last().energy.total() <= e.total());
                assert(is_max(masked, r[r.len() - 1]));
                assert(r.last().energy.finite());
                assert(r.last().energy.at_most(e));
            }
            assert(!dirty[j][n]);
            if n > 0 {
                let x = masked[j].seen[n - 1];
                assert(exact[j].seen[n - 1] == x || masked_out(x));
            }
            if n + 1 < masked[j].seen.len() {
                let x = masked[j].seen[n + 1];
                assert(exact[j].seen[n + 1] == x || masked_out(x));
            }
            assert(peak(masked[j], n));
            assert(s == seed_at(masked[j], n));
            assert(is_max(masked, s));
            if shadowed(masked, r, s) {
                let i = choose|i: int|
                    0 <= i < r.len() && before(#[trigger] r[i], s) && crowds(masked, r[i], s);
                assert(crowds(exact, r[i], s));
            }
        }
    }
    assert forall|i: int, j: int| #![trigger r[i], r[j]] 0 <= i < j < r.len() implies !crowds(
        exact,
        r[i],
        r[j],
    ) by {
        assert(!crowds(masked, r[i], r[j]));
    }
}

/// No seed of a ranked run is weaker than the last.
proof fn lemma_not_weaker(r: Seq<Seed>, i: int)
    requires
        strictly_ranked(r),
        0 <= i < r.len(),
    ensures
        r.last().energy.total() <= r[i].energy.total(),
        !r[i].energy.nan() && !r.last().energy.nan() ==> r.last().energy.at_most(r[i].energy),
{
    if i < r.len() - 1 {
        assert(before(r[i], r[r.len() - 1]));
    }
}

} // verus!
