//! Golden-section search, scoring several trials at once and finding what a serial search would.
//!
//! Golden section is sequential, but its next few probes are known before any is scored: one per path
//! of comparison outcomes. [`golden`] scores that tree as a batch and follows the path the comparisons
//! actually take. Scoring and committing are separate, so that a batch can be scored in any order and
//! on any thread while the cache's insertions and clears still happen in the serial order, and for the
//! serial search's probes alone.

use crate::arith::{drawn, Arith, Drawn, Form, Gram, Params, Rendered, Stage};
use crate::atom::{EnvelopeParams, GaussianParams, Shape};
use crate::cache::{
    admissible, code, entry_for, in_bounds, looked_up, render_entry, CacheState, EnvelopeCache,
};
use crate::ieee::{Double, Single};
use crate::pool::spread;
use crate::refine::RefineConfig;
use vstd::prelude::*;

verus! {

/// What a refined shape inherits from its seed rather than searching. A refined atom never changes
/// kind.
#[derive(Clone, Copy, Debug, PartialEq, Eq, Structural)]
pub enum Family {
    Fof { fade_level: Single },
    Gaussian { cutoff_level: Single },
}

/// The form is one of the family's.
pub open spec fn fits(family: Family, form: Form) -> bool {
    (family is Fof) == (form is Fof)
}

/// A form's shape in a family. A FOF's release follows its decay rate.
pub open spec fn shape_of<A: Arith>(ar: &A, family: Family, form: Form) -> Shape {
    match form {
        Form::Fof { alpha, beta } => Shape::Fof(
            EnvelopeParams {
                alpha,
                beta,
                fade_level: family->fade_level,
                fade_dur: ar.release_of(alpha),
            },
        ),
        Form::Gaussian { sigma } => Shape::Gaussian(
            GaussianParams { sigma, cutoff_level: family->cutoff_level },
        ),
    }
}

/// A shape in a family is told by its memo code.
proof fn lemma_code_tells_shape<A: Arith>(ar: &A, family: Family, a: Form, b: Form)
    requires
        fits(family, a),
        fits(family, b),
        code(shape_of(ar, family, a)) == code(shape_of(ar, family, b)),
    ensures
        shape_of(ar, family, a) == shape_of(ar, family, b),
{
    crate::cache::law_codes_are_keys(shape_of(ar, family, a), shape_of(ar, family, b));
}

/// A whole number, within the range of an onset.
pub open spec fn held_to_range(t: int) -> i64 {
    if t < i64::MIN {
        i64::MIN
    } else if t > i64::MAX {
        i64::MAX
    } else {
        t as i64
    }
}

/// A whole number, within the range of an onset.
pub fn hold_to_range(t: i128) -> (r: i64)
    ensures
        r == held_to_range(t as int),
{
    if t < i64::MIN as i128 {
        i64::MIN
    } else if t > i64::MAX as i128 {
        i64::MAX
    } else {
        t as i64
    }
}

/// One search stage: the parameter it moves, from where, and what it holds fixed.
pub struct Line<'a, A: Arith> {
    pub ar: &'a A,
    pub cfg: &'a RefineConfig,
    pub family: Family,
    pub stage: Stage,
    pub base: Params,
    /// The Gram, where the stage holds both the envelope and the carrier fixed.
    pub gram: Option<Gram>,
}

/// A golden-section bracket `[a, b]` and its two interior points.
#[derive(Clone, Copy, Debug, PartialEq, Eq, Structural)]
pub struct Section {
    pub a: Double,
    pub b: Double,
    pub x1: Double,
    pub x2: Double,
}

/// A serial search in progress.
pub struct Walk {
    pub sec: Section,
    pub p1: Params,
    pub p2: Params,
    pub f1: Double,
    pub f2: Double,
    pub cache: CacheState,
}

/// A score computed ahead, and where its envelope came from, which decides whether it can be trusted.
pub enum Source {
    /// Out of bounds: scores zero, and the cache never sees it.
    Refused,
    /// The entry the cache held when the batch was scored.
    Held,
    /// The trial's own render of a shape the cache did not hold.
    Fresh(Option<Rendered>),
}

pub struct Mark {
    pub score: Double,
    pub source: Source,
}

pub struct Batch {
    pub marks: Vec<Mark>,
    /// The cache's clear count when the batch was scored.
    pub clears: u64,
}

/// A probe planned before the comparisons that lead to it were made.
#[derive(Clone, Copy, Debug, PartialEq, Eq, Structural)]
pub struct Probe {
    /// The bracket after the step that placed this probe.
    pub sec: Section,
    /// Which way that step went, and so which interior point the probe is.
    pub left: bool,
    /// The probes after it, by the next comparison's outcome.
    pub then_left: usize,
    pub then_right: usize,
}

impl Probe {
    pub open spec fn at(self) -> Double {
        if self.left {
            self.sec.x1
        } else {
            self.sec.x2
        }
    }

    fn x(&self) -> (r: Double)
        ensures
            r == self.at(),
    {
        if self.left {
            self.sec.x1
        } else {
            self.sec.x2
        }
    }
}

/// `[a, b]` with both interior points placed.
pub open spec fn section<A: Arith>(ar: &A, a: Double, b: Double) -> Section {
    Section { a, b, x1: ar.place_of(a, b, true), x2: ar.place_of(a, b, false) }
}

/// The bracket shrunk toward `a` when `left`, keeping the point that survives.
pub open spec fn stepped<A: Arith>(ar: &A, s: Section, left: bool) -> Section {
    if left {
        Section { a: s.a, b: s.x2, x1: ar.place_of(s.a, s.x2, true), x2: s.x1 }
    } else {
        Section { a: s.x1, b: s.b, x1: s.x2, x2: ar.place_of(s.x1, s.b, false) }
    }
}

fn step<A: Arith>(ar: &A, s: Section, left: bool) -> (r: Section)
    requires
        ar.repeatable(),
    ensures
        r == stepped(ar, s, left),
{
    if left {
        Section { a: s.a, b: s.x2, x1: ar.place(s.a, s.x2, true), x2: s.x1 }
    } else {
        Section { a: s.x1, b: s.b, x1: s.x2, x2: ar.place(s.x1, s.b, false) }
    }
}

impl<'a, A: Arith> Line<'a, A> {
    pub open spec fn wf(&self) -> bool {
        self.ar.repeatable() && fits(self.family, self.base.form)
    }

    /// The parameters at a point of the line.
    ///
    /// A Gaussian's width is searched about its centre: its onset moves with it.
    pub open spec fn at(&self, x: Double) -> Params {
        match self.stage {
            Stage::Frequency => Params { f: self.ar.value_of(self.stage, x), ..self.base },
            Stage::Alpha => match self.base.form {
                Form::Fof { alpha, beta } => Params {
                    form: Form::Fof { alpha: self.ar.value_of(self.stage, x), beta },
                    ..self.base
                },
                Form::Gaussian { sigma } => self.base,
            },
            Stage::Beta => match self.base.form {
                Form::Fof { alpha, beta } => Params {
                    form: Form::Fof { alpha, beta: self.ar.value_of(self.stage, x) },
                    ..self.base
                },
                Form::Gaussian { sigma } => self.base,
            },
            Stage::Sigma => match self.base.form {
                Form::Fof { alpha, beta } => self.base,
                Form::Gaussian { sigma } => {
                    let wide = self.ar.value_of(self.stage, x);
                    Params {
                        form: Form::Gaussian { sigma: wide },
                        t0: held_to_range(
                            self.base.t0 + self.ar.half_len_of(sigma) - self.ar.half_len_of(wide),
                        ),
                        ..self.base
                    }
                },
            },
            Stage::Onset(_) => Params { t0: self.ar.nearest_of(x), ..self.base },
        }
    }

    /// The parameters at a point of the line.
    pub fn params_at(&self, x: Double) -> (r: Params)
        requires
            self.wf(),
        ensures
            r == self.at(x),
            fits(self.family, r.form),
    {
        let mut p = self.base;
        match self.stage {
            Stage::Frequency => {
                p.f = self.ar.value(self.stage, x);
            },
            Stage::Alpha => {
                if let Form::Fof { alpha: _, beta } = self.base.form {
                    p.form = Form::Fof { alpha: self.ar.value(self.stage, x), beta };
                }
            },
            Stage::Beta => {
                if let Form::Fof { alpha, beta: _ } = self.base.form {
                    p.form = Form::Fof { alpha, beta: self.ar.value(self.stage, x) };
                }
            },
            Stage::Sigma => {
                if let Form::Gaussian { sigma } = self.base.form {
                    let wide = self.ar.value(self.stage, x);
                    let centre: i128 = self.base.t0 as i128 + self.ar.half_len(sigma) as i128;
                    p.form = Form::Gaussian { sigma: wide };
                    p.t0 = hold_to_range(centre - self.ar.half_len(wide) as i128);
                }
            },
            Stage::Onset(_) => {
                p.t0 = self.ar.nearest(x);
            },
        }
        p
    }

    pub open spec fn shape(&self, p: Params) -> Shape {
        shape_of(self.ar, self.family, p.form)
    }

    pub(crate) fn shape_for(&self, p: Params) -> (r: Shape)
        requires
            self.wf(),
            fits(self.family, p.form),
        ensures
            r == self.shape(p),
    {
        match (self.family, p.form) {
            (Family::Fof { fade_level }, Form::Fof { alpha, beta }) => Shape::Fof(
                EnvelopeParams { alpha, beta, fade_level, fade_dur: self.ar.release(alpha) },
            ),
            (Family::Gaussian { cutoff_level }, Form::Gaussian { sigma }) => Shape::Gaussian(
                GaussianParams { sigma, cutoff_level },
            ),
            (Family::Fof { fade_level }, Form::Gaussian { sigma }) => Shape::Gaussian(
                GaussianParams { sigma, cutoff_level: fade_level },
            ),
            (Family::Gaussian { cutoff_level }, Form::Fof { alpha, beta }) => Shape::Fof(
                EnvelopeParams {
                    alpha,
                    beta,
                    fade_level: cutoff_level,
                    fade_dur: self.ar.release(alpha),
                },
            ),
        }
    }

    pub open spec fn region(&self, p: Params, e: Option<Drawn>) -> Double {
        match e {
            Some(r) => self.ar.region_of(p, r, self.gram),
            None => Double { bits: 0 },
        }
    }

    /// A trial's fit-region score by a lookup, and the cache the lookup leaves.
    pub open spec fn score(&self, c: CacheState, p: Params) -> (Double, CacheState) {
        let (e, after) = looked_up(self.ar, *self.cfg, c, self.shape(p));
        (self.region(p, e), after)
    }

    /// A trial's fit-region score by a lookup.
    pub fn score_now(&self, cache: &mut EnvelopeCache, p: Params) -> (r: Double)
        requires
            self.wf(),
            fits(self.family, p.form),
            old(cache).wf(),
        ensures
            final(cache).wf(),
            (r, final(cache)@) == self.score(old(cache)@, p),
    {
        let shape = self.shape_for(p);
        match cache.get(self.ar, self.cfg, shape) {
            Some(e) => self.ar.region(p, e, self.gram),
            None => Double { bits: 0 },
        }
    }

    /// What scoring a trial ahead sees of a cache, changing nothing.
    pub open spec fn foreseen(&self, c: CacheState, p: Params, m: Mark) -> bool {
        let shape = self.shape(p);
        if !admissible(self.ar, *self.cfg, shape) {
            m.score == (Double { bits: 0 }) && m.source is Refused
        } else if c.entries.dom().contains(code(shape)) {
            m.score == self.region(p, c.entries[code(shape)]) && m.source is Held
        } else {
            let e = entry_for(self.ar, *self.cfg, shape);
            m.score == self.region(p, e) && (m.source matches Source::Fresh(own) && drawn(own) == e)
        }
    }

    fn foresee(&self, cache: &EnvelopeCache, p: Params) -> (r: Mark)
        requires
            self.wf(),
            fits(self.family, p.form),
        ensures
            self.foreseen(cache@, p, r),
    {
        let shape = self.shape_for(p);
        if !in_bounds(self.ar, self.cfg, shape) {
            return Mark { score: Double { bits: 0 }, source: Source::Refused };
        }
        let k: u128 = crate::cache::code_of(&shape);
        if cache.holds(k) {
            let score = match cache.entry(k) {
                Some(e) => self.ar.region(p, e, self.gram),
                None => Double { bits: 0 },
            };
            Mark { score, source: Source::Held }
        } else {
            let e = render_entry(self.ar, self.cfg, shape);
            let score = match &e {
                Some(r) => self.ar.region(p, r, self.gram),
                None => Double { bits: 0 },
            };
            Mark { score, source: Source::Fresh(e) }
        }
    }
}

impl<'a, A: Arith + Sync> Line<'a, A> {
    /// Score every trial, changing nothing.
    ///
    /// One at a time, each trial is scored as it is committed instead.
    pub(crate) fn speculate(&self, cache: &EnvelopeCache, trials: &[Params], width: usize) -> (r: Batch)
        requires
            self.wf(),
            forall|i: int| 0 <= i < trials@.len() ==> fits(self.family, (#[trigger] trials@[i]).form),
        ensures
            r.clears == cache@.clears,
            width > 1 ==> r.marks@.len() == trials@.len(),
            width > 1 ==> forall|i: int|
                0 <= i < trials@.len() ==> self.foreseen(
                    cache@,
                    trials@[i],
                    #[trigger] r.marks@[i],
                ),
    {
        if width <= 1 {
            return Batch { marks: Vec::new(), clears: cache.clears() };
        }
        let f = |i: usize| -> (m: Mark)
            requires
                self.wf(),
                i < trials@.len(),
                fits(self.family, trials@[i as int].form),
            ensures
                self.foreseen(cache@, trials@[i as int], m),
            { self.foresee(cache, trials[i]) };
        let marks = spread(trials.len(), f);
        Batch { marks, clears: cache.clears() }
    }
}

/// A cache some of whose entries may have come and gone since it was `was`, every arrival a render of
/// the family's own.
pub open spec fn since<'a, A: Arith>(line: Line<'a, A>, was: CacheState, now: CacheState) -> bool {
    &&& was.clears <= now.clears
    &&& was.clears == now.clears && was.clears < u64::MAX ==> forall|k: u128| #[trigger]
        was.entries.dom().contains(k) ==> now.entries.dom().contains(k) && now.entries[k]
            == was.entries[k]
    &&& forall|k: u128| #[trigger]
        now.entries.dom().contains(k) && !was.entries.dom().contains(k) ==> exists|form: Form|
            fits(line.family, form) && code(#[trigger] shape_of(line.ar, line.family, form)) == k
                && now.entries[k] == entry_for(
                line.ar,
                *line.cfg,
                shape_of(line.ar, line.family, form),
            )
}

/// A lookup of the family's own keeps the relation.
proof fn lemma_since_step<'a, A: Arith>(
    line: Line<'a, A>,
    was: CacheState,
    now: CacheState,
    p: Params,
)
    requires
        line.wf(),
        fits(line.family, p.form),
        since(line, was, now),
        0 <= now.clears <= u64::MAX,
    ensures
        since(line, was, line.score(now, p).1),
{
    let shape = line.shape(p);
    let k = code(shape);
    let next = line.score(now, p).1;
    if admissible(line.ar, *line.cfg, shape) && !now.entries.dom().contains(k) {
        let e = entry_for(line.ar, *line.cfg, shape);
        assert(next == now.stored(k, e));
        assert forall|j: u128| #[trigger]
            next.entries.dom().contains(j) && !was.entries.dom().contains(j) implies exists|form: Form|
            fits(line.family, form) && code(#[trigger] shape_of(line.ar, line.family, form)) == j
                && next.entries[j] == entry_for(
                line.ar,
                *line.cfg,
                shape_of(line.ar, line.family, form),
            ) by {
            if j == k {
                assert(shape_of(line.ar, line.family, p.form) == shape);
            } else {
                assert(now.entries.dom().contains(j));
            }
        }
    }
}

impl<'a, A: Arith> Line<'a, A> {
    /// The cache after the first `n` trials are scored one at a time.
    pub open spec fn scored_through(&self, c: CacheState, trials: Seq<Params>, n: int) -> CacheState
        decreases n,
    {
        if n <= 0 {
            c
        } else {
            self.score(self.scored_through(c, trials, n - 1), trials[n - 1]).1
        }
    }

    /// The score a one-at-a-time search would have seen for `trials[i]`, making the changes to the
    /// cache it would have made.
    ///
    /// The batch was scored when the cache was `was`, and what it holds for the trials from `i` on is
    /// still as it was scored.
    pub(crate) fn commit(
        &self,
        cache: &mut EnvelopeCache,
        batch: &mut Batch,
        trials: &[Params],
        i: usize,
        width: usize,
        was: Ghost<CacheState>,
    ) -> (r: Double)
        requires
            self.wf(),
            i < trials@.len(),
            fits(self.family, trials@[i as int].form),
            old(cache).wf(),
            since(*self, was@, old(cache)@),
            old(batch).clears == was@.clears,
            width > 1 ==> old(batch).marks@.len() == trials@.len(),
            width > 1 ==> forall|j: int|
                i <= j < trials@.len() ==> self.foreseen(
                    was@,
                    trials@[j],
                    #[trigger] old(batch).marks@[j],
                ),
        ensures
            final(cache).wf(),
            (r, final(cache)@) == self.score(old(cache)@, trials@[i as int]),
            since(*self, was@, final(cache)@),
            final(batch).clears == old(batch).clears,
            final(batch).marks@.len() == old(batch).marks@.len(),
            forall|j: int|
                i < j < trials@.len() && width > 1 ==> #[trigger] final(batch).marks@[j] == old(
                    batch,
                ).marks@[j],
    {
        let p = trials[i];
        proof {
            lemma_since_step(*self, was@, cache@, p);
        }
        if width <= 1 {
            return self.score_now(cache, p);
        }
        let shape = self.shape_for(p);
        let k: u128 = crate::cache::code_of(&shape);
        let score = batch.marks[i].score;
        let ghost before = *batch;
        let mut mark = Mark { score: Double { bits: 0 }, source: Source::Refused };
        std::mem::swap(&mut mark, &mut batch.marks[i]);
        assert(batch.marks@ =~= before.marks@.update(i as int, batch.marks@[i as int]));
        let exact = match mark.source {
            Source::Refused => true,
            // Entries leave only by a clear and are never overwritten, so with no clear since the
            // batch was scored this is still the entry a lookup returns. After one it may not be: a
            // FOF's code leaves out the release, and a fresh render need not match what was held.
            Source::Held => cache.clears() == batch.clears && batch.clears < u64::MAX,
            // Either still missing, and this render is what the lookup would insert, or inserted
            // since by an earlier trial of this batch - a render of this same shape either way.
            Source::Fresh(value) => {
                if !cache.holds(k) {
                    cache.insert(k, value);
                } else {
                    proof {
                        let form = choose|form: Form|
                            fits(self.family, form) && code(
                                #[trigger] shape_of(self.ar, self.family, form),
                            ) == k && cache@.entries[k] == entry_for(
                                self.ar,
                                *self.cfg,
                                shape_of(self.ar, self.family, form),
                            );
                        lemma_code_tells_shape(self.ar, self.family, form, p.form);
                    }
                }
                true
            },
        };
        if exact {
            return score;
        }
        self.score_now(cache, p)
    }

    /// The serial search's opening: both interior points scored.
    pub open spec fn opening(&self, lo: Double, hi: Double, c: CacheState) -> Walk {
        let sec = section(self.ar, lo, hi);
        let (p1, p2) = (self.at(sec.x1), self.at(sec.x2));
        let (f1, c1) = self.score(c, p1);
        let (f2, c2) = self.score(c1, p2);
        Walk { sec, p1, p2, f1, f2, cache: c2 }
    }

    /// One step of the serial search.
    pub open spec fn advanced(&self, w: Walk) -> Walk {
        let left = w.f2.at_most(w.f1);
        let sec = stepped(self.ar, w.sec, left);
        let p = self.at(
            if left {
                sec.x1
            } else {
                sec.x2
            },
        );
        let (f, cache) = self.score(w.cache, p);
        if left {
            Walk { sec, p1: p, p2: w.p1, f1: f, f2: w.f1, cache }
        } else {
            Walk { sec, p1: w.p2, p2: p, f1: w.f2, f2: f, cache }
        }
    }

    /// The serial search after `n` steps.
    pub open spec fn walked(&self, w: Walk, n: int) -> Walk
        decreases n,
    {
        if n <= 0 {
            w
        } else {
            self.advanced(self.walked(w, n - 1))
        }
    }

    /// What a serial golden-section maximization over `[lo, hi]` finds, with the cache it leaves. The
    /// incumbent survives unless it is beaten.
    pub open spec fn serial(
        &self,
        lo: Double,
        hi: Double,
        iters: int,
        best_score: Double,
        c: CacheState,
    ) -> (Params, Double, CacheState) {
        if !lo.less(hi) {
            (self.base, best_score, c)
        } else {
            let w = self.walked(self.opening(lo, hi, c), iters);
            let (p, f) = if w.f2.at_most(w.f1) {
                (w.p1, w.f1)
            } else {
                (w.p2, w.f2)
            };
            if best_score.less(f) {
                (p, f, w.cache)
            } else {
                (self.base, best_score, w.cache)
            }
        }
    }
}

/// Score every trial in order, up to `width` of them at once.
///
/// Each score, and the cache, are what scoring them one at a time would give.
pub fn score_all<'a, A: Arith + Sync>(
    line: &Line<'a, A>,
    cache: &mut EnvelopeCache,
    trials: &[Params],
    width: usize,
) -> (r: Vec<Double>)
    requires
        line.wf(),
        forall|i: int| 0 <= i < trials@.len() ==> fits(line.family, (#[trigger] trials@[i]).form),
        old(cache).wf(),
    ensures
        final(cache).wf(),
        final(cache)@ == line.scored_through(old(cache)@, trials@, trials@.len() as int),
        r@.len() == trials@.len(),
        forall|i: int|
            0 <= i < trials@.len() ==> #[trigger] r@[i] == line.score(
                line.scored_through(old(cache)@, trials@, i),
                trials@[i],
            ).0,
{
    let ghost was = cache@;
    let mut batch = line.speculate(cache, trials, width);
    let mut out: Vec<Double> = Vec::new();
    let mut i: usize = 0;
    while i < trials.len()
        invariant
            line.wf(),
            forall|i: int|
                0 <= i < trials@.len() ==> fits(line.family, (#[trigger] trials@[i]).form),
            cache.wf(),
            i <= trials@.len(),
            cache@ == line.scored_through(was, trials@, i as int),
            since(*line, was, cache@),
            batch.clears == was.clears,
            width > 1 ==> batch.marks@.len() == trials@.len(),
            width > 1 ==> forall|j: int|
                i <= j < trials@.len() ==> line.foreseen(
                    was,
                    trials@[j],
                    #[trigger] batch.marks@[j],
                ),
            out@.len() == i,
            forall|j: int|
                0 <= j < i ==> #[trigger] out@[j] == line.score(
                    line.scored_through(was, trials@, j),
                    trials@[j],
                ).0,
        decreases trials@.len() - i,
    {
        let f = line.commit(cache, &mut batch, trials, i, width, Ghost(was));
        out.push(f);
        i += 1;
    }
    out
}

/// A search never loses: it returns the incumbent, or something that beats it.
pub proof fn law_search_never_loses<'a, A: Arith>(
    line: Line<'a, A>,
    lo: Double,
    hi: Double,
    iters: int,
    best_score: Double,
    c: CacheState,
)
    ensures
        ({
            let (p, score, _) = line.serial(lo, hi, iters, best_score, c);
            best_score.less(score) || (p == line.base && score == best_score)
        }),
{
}

/// A search moves its own parameter: what the others are, and the kind, stay.
pub proof fn law_search_moves_one_parameter<'a, A: Arith>(line: Line<'a, A>, x: Double)
    ensures
        (line.at(x).form is Fof) == (line.base.form is Fof),
        !(line.stage is Frequency) ==> line.at(x).f == line.base.f,
        line.stage is Frequency || line.stage is Onset ==> line.at(x).form == line.base.form,
        line.stage is Frequency || line.stage is Alpha || line.stage is Beta ==> line.at(x).t0
            == line.base.t0,
{
}

/// The width stage holds a Gaussian's centre fixed, wherever the onset that takes is in range.
pub proof fn law_width_is_searched_about_the_centre<'a, A: Arith>(line: Line<'a, A>, x: Double)
    requires
        line.stage is Sigma,
        line.base.form is Gaussian,
        ({
            let was = line.base.t0 + line.ar.half_len_of(line.base.form->sigma);
            let wide = line.ar.value_of(line.stage, x);
            i64::MIN <= was - line.ar.half_len_of(wide) <= i64::MAX
        }),
    ensures
        line.at(x).t0 + line.ar.half_len_of(line.at(x).form->sigma) == line.base.t0
            + line.ar.half_len_of(line.base.form->sigma),
{
}

/// `probes[i]` begins a plan of `levels` steps from `sec`, the first going `left`.
pub open spec fn planned<A: Arith>(
    ar: &A,
    probes: Seq<Probe>,
    i: int,
    sec: Section,
    left: bool,
    levels: int,
) -> bool
    decreases levels,
{
    &&& levels >= 1
    &&& 0 <= i < probes.len()
    &&& probes[i].sec == stepped(ar, sec, left)
    &&& probes[i].left == left
    &&& levels > 1 ==> {
        &&& i < probes[i].then_right
        &&& i < probes[i].then_left
        &&& planned(ar, probes, probes[i].then_right as int, probes[i].sec, false, levels - 1)
        &&& planned(ar, probes, probes[i].then_left as int, probes[i].sec, true, levels - 1)
    }
}

/// A plan rests on the probes from its first on.
proof fn lemma_plan_frame<A: Arith>(
    ar: &A,
    a: Seq<Probe>,
    b: Seq<Probe>,
    i: int,
    sec: Section,
    left: bool,
    levels: int,
)
    requires
        planned(ar, a, i, sec, left, levels),
        a.len() <= b.len(),
        forall|j: int| i <= j < a.len() ==> #[trigger] a[j] == b[j],
    ensures
        planned(ar, b, i, sec, left, levels),
    decreases levels,
{
    assert(a[i] == b[i]);
    if levels > 1 {
        lemma_plan_frame(ar, a, b, a[i].then_right as int, a[i].sec, false, levels - 1);
        lemma_plan_frame(ar, a, b, a[i].then_left as int, a[i].sec, true, levels - 1);
    }
}

/// Plan `levels` steps from `sec`, the first going `left`. Returns the first probe's index.
fn plan<A: Arith>(ar: &A, sec: Section, left: bool, levels: usize, probes: &mut Vec<Probe>) -> (r:
    usize)
    requires
        ar.repeatable(),
        levels >= 1,
    ensures
        r == old(probes)@.len(),
        final(probes)@.len() > old(probes)@.len(),
        forall|j: int|
            0 <= j < old(probes)@.len() ==> #[trigger] final(probes)@[j] == old(probes)@[j],
        planned(ar, final(probes)@, r as int, sec, left, levels as int),
    decreases levels,
{
    let ghost before = probes@;
    let next = step(ar, sec, left);
    let i: usize = probes.len();
    probes.push(Probe { sec: next, left, then_left: usize::MAX, then_right: usize::MAX });
    if levels > 1 {
        let then_right: usize = plan(ar, next, false, levels - 1, probes);
        let ghost with_right = probes@;
        let then_left: usize = plan(ar, next, true, levels - 1, probes);
        let ghost with_both = probes@;
        let q = Probe { sec: next, left, then_left, then_right };
        assert(probes@[i as int] == with_right[i as int]);
        probes.set(i, q);
        proof {
            lemma_plan_frame(
                ar,
                with_right,
                with_both,
                then_right as int,
                next,
                false,
                levels - 1,
            );
            lemma_plan_frame(ar, with_both, probes@, then_right as int, next, false, levels - 1);
            lemma_plan_frame(ar, with_both, probes@, then_left as int, next, true, levels - 1);
        }
    }
    i
}

/// The whole steps of halving it takes to bring `n` to one.
fn halvings(n: usize) -> (r: usize)
    requires
        n >= 1,
    ensures
        n == 1 ==> r == 0,
        n >= 2 ==> r >= 1,
{
    let mut left: usize = n;
    let mut r: usize = 0;
    while left > 1
        invariant
            1 <= left <= n,
            r + left <= n,
            n >= 2 && left < n ==> r >= 1,
            n == 1 ==> r == 0,
        decreases left,
    {
        left = left / 2;
        r += 1;
    }
    r
}

/// Golden-section maximization over `[lo, hi]`, adopting the result only if it beats `best_score`.
///
/// A batch holds up to `width` trials. Speculation decides how much is computed, never what is found:
/// the points probed and the comparisons made are the serial search's, so the parameters, the score
/// and the cache are too, bit for bit, whatever the width.
pub fn golden<'a, A: Arith + Sync>(
    line: &Line<'a, A>,
    lo: Double,
    hi: Double,
    iters: usize,
    best_score: Double,
    width: usize,
    cache: &mut EnvelopeCache,
) -> (r: (Params, Double))
    requires
        line.wf(),
        width < usize::MAX,
        old(cache).wf(),
    ensures
        final(cache).wf(),
        (r.0, r.1, final(cache)@) == line.serial(lo, hi, iters as int, best_score, old(cache)@),
        fits(line.family, r.0.form),
{
    if !lo.lt(hi) {
        return (line.base, best_score);
    }
    let ghost c0 = cache@;
    let ghost start = line.opening(lo, hi, c0);
    let width: usize = if width >= 1 {
        width
    } else {
        1
    };
    let mut sec = Section { a: lo, b: hi, x1: line.ar.place(lo, hi, true), x2: line.ar.place(lo, hi, false) };
    let mut p1 = line.params_at(sec.x1);
    let mut p2 = line.params_at(sec.x2);
    let mut f1 = Double { bits: 0 };
    let mut f2 = Double { bits: 0 };
    let mut done: usize = 0;
    let mut first = true;
    while first || done < iters
        invariant
            line.wf(),
            1 <= width < usize::MAX,
            cache.wf(),
            done <= iters,
            start == line.opening(lo, hi, c0),
            fits(line.family, p1.form),
            fits(line.family, p2.form),
            first ==> done == 0 && cache@ == c0 && sec == section(line.ar, lo, hi) && p1 == line.at(
                sec.x1,
            ) && p2 == line.at(sec.x2),
            !first ==> (Walk { sec, p1, p2, f1, f2, cache: cache@ }) == line.walked(
                start,
                done as int,
            ),
        decreases (iters - done) + (if first {
            1int
        } else {
            0
        }),
    {
        // The first batch carries both interior points, and no comparison has been made, so it plans
        // below both outcomes; every later batch plans below the one outcome in hand.
        let room: usize = if first {
            if width >= 2 {
                (width - 2) / 2
            } else {
                0
            }
        } else {
            width
        };
        let deepest: usize = halvings(room + 1);
        let levels: usize = if deepest < iters - done {
            deepest
        } else {
            iters - done
        };
        let mut probes: Vec<Probe> = Vec::new();
        let mut root_right: usize = 0;
        let mut root_left: usize = 0;
        let left_now = f1.ge(f2);
        if levels > 0 && (first || !left_now) {
            root_right = plan(line.ar, sec, false, levels, &mut probes);
        }
        let ghost rights = probes@;
        if levels > 0 && (first || left_now) {
            root_left = plan(line.ar, sec, true, levels, &mut probes);
        }
        proof {
            if levels > 0 && (first || !left_now) {
                lemma_plan_frame(
                    line.ar,
                    rights,
                    probes@,
                    root_right as int,
                    sec,
                    false,
                    levels as int,
                );
            }
        }

        let mut trials: Vec<Params> = Vec::new();
        if first {
            trials.push(p1);
            trials.push(p2);
        }
        let offset: usize = trials.len();
        let mut j: usize = 0;
        while j < probes.len()
            invariant
                line.wf(),
                j <= probes@.len(),
                trials@.len() == offset + j,
                offset == (if first {
                    2int
                } else {
                    0
                }),
                first ==> trials@[0] == p1 && trials@[1] == p2,
                forall|i: int| 0 <= i < offset ==> fits(line.family, (#[trigger] trials@[i]).form),
                forall|i: int|
                    offset <= i < offset + j ==> #[trigger] trials@[i] == line.at(
                        probes@[i - offset].at(),
                    ),
                forall|i: int|
                    offset <= i < offset + j ==> fits(line.family, (#[trigger] trials@[i]).form),
            decreases probes@.len() - j,
        {
            let x = probes[j].x();
            let p = line.params_at(x);
            trials.push(p);
            j += 1;
        }

        let ghost was = cache@;
        let mut batch = line.speculate(cache, trials.as_slice(), width);
        assert(since(*line, was, cache@));
        if first {
            f1 = line.commit(cache, &mut batch, trials.as_slice(), 0, width, Ghost(was));
            f2 = line.commit(cache, &mut batch, trials.as_slice(), 1, width, Ghost(was));
            assert((Walk { sec, p1, p2, f1, f2, cache: cache@ }) == line.walked(start, 0));
        }
        let mut i: usize = if f1.ge(f2) {
            root_left
        } else {
            root_right
        };
        let ghost from = done;
        let mut level: usize = 0;
        while level < levels
            invariant
                line.wf(),
                cache.wf(),
                level <= levels,
                done == from + level,
                from + levels <= iters,
                fits(line.family, p1.form),
                fits(line.family, p2.form),
                (Walk { sec, p1, p2, f1, f2, cache: cache@ }) == line.walked(start, done as int),
                since(*line, was, cache@),
                batch.clears == was.clears,
                trials@.len() == offset + probes@.len(),
                forall|j: int|
                    offset <= j < trials@.len() ==> #[trigger] trials@[j] == line.at(
                        probes@[j - offset].at(),
                    ),
                forall|j: int|
                    offset <= j < trials@.len() ==> fits(line.family, (#[trigger] trials@[j]).form),
                level < levels ==> planned(
                    line.ar,
                    probes@,
                    i as int,
                    sec,
                    f2.at_most(f1),
                    levels - level,
                ),
                width > 1 ==> batch.marks@.len() == trials@.len(),
                width > 1 && level < levels ==> forall|j: int|
                    offset + i <= j < trials@.len() ==> line.foreseen(
                    was,
                    trials@[j],
                    #[trigger] batch.marks@[j],
                ),
            decreases levels - level,
        {
            assert(trials.len() == trials@.len());
            let q = probes[i];
            let t: usize = offset + i;
            let p = trials[t];
            let f = line.commit(cache, &mut batch, trials.as_slice(), t, width, Ghost(was));
            if q.left {
                p2 = p1;
                f2 = f1;
                p1 = p;
                f1 = f;
            } else {
                p1 = p2;
                f1 = f2;
                p2 = p;
                f2 = f;
            }
            sec = q.sec;
            done += 1;
            level += 1;
            if level < levels {
                i = if f1.ge(f2) {
                    q.then_left
                } else {
                    q.then_right
                };
            }
        }
        first = false;
    }
    let (p, f) = if f1.ge(f2) {
        (p1, f1)
    } else {
        (p2, f2)
    };
    if best_score.lt(f) {
        (p, f)
    } else {
        (line.base, best_score)
    }
}

} // verus!
