//! One analysis, from a signal to a book, driven the same way by every front end.
//!
//! The pipeline builds the dictionary, plans the windows, runs the pursuit in each, and analyses what
//! is left over. A front end lends it a machine to compute on, a clock, and someone to tell.

use crate::arith::{Gram, Params, Rendered};
use crate::atom::{energy, energy_of, AtomParams, Envelope, Shape};
use crate::book::Book;
use crate::cand::Candidate;
use crate::config::{settings_refusal, Config};
use crate::corr::Projection;
use crate::decimate::up;
use crate::dict::{
    dictionary_built, is_dictionary, lemma_built_block, real_transform, renders, shape_built, Bin,
    Block, BlockConfig, Dictionary, FofError,
};
use crate::ieee::{Double, Single};
use crate::pursue::{pursuable, Kit};
use crate::pursuit::{MpConfig, Verdict};
use crate::reals::Reals;
use crate::refresh::scannable;
use crate::residual::analyze::{analyze_residual, residual_analysed};
use crate::residual::book::ResidualBook;
use crate::residual::config::ResidualAnalysisConfig;
use crate::residual::error::{told, ResidualAnalysisError};
use crate::residual::math::BankMath;
use crate::units::Units;
use crate::window::{planned, WindowPlan, WindowedRun};
use crate::windowed::{spent, stretch, timed};
use vstd::prelude::*;

verus! {

/// Where the time went, in nanoseconds.
#[derive(Clone, Copy, Debug, PartialEq, Eq, Structural)]
pub struct Timing {
    pub dictionary: u64,
    /// Building the tables, summed over windows.
    pub init: u64,
    /// The pursuit proper, with `init` already taken out.
    pub pursuit: u64,
    pub residual: u64,
}

impl Default for Timing {
    fn default() -> (r: Timing)
        ensures
            r == (Timing { dictionary: 0, init: 0, pursuit: 0, residual: 0 }),
    {
        Timing { dictionary: 0, init: 0, pursuit: 0, residual: 0 }
    }
}

impl Timing {
    /// What a run's rate counts: the tables and the pursuit, and neither the dictionary, which is
    /// built once per settings, nor the residual analysis.
    pub open spec fn counted(self) -> u128 {
        (self.init + self.pursuit) as u128
    }

    /// The pursuit's time, given the whole run's.
    pub fn pursued(&mut self, elapsed: u64, init: u64)
        ensures
            final(self).init == init,
            final(self).pursuit == if elapsed >= init {
                elapsed - init
            } else {
                0
            },
            final(self).dictionary == old(self).dictionary,
            final(self).residual == old(self).residual,
    {
        self.init = init;
        self.pursuit = elapsed.saturating_sub(init);
    }

    /// A span of nanoseconds in seconds, as a single.
    pub open spec fn secs<R: Reals>(r: &R, nanos: u128) -> Single {
        r.plus_single_of(
            r.long_single_of((nanos / 1_000_000_000) as i128),
            r.over_single_of(r.long_single_of((nanos % 1_000_000_000) as i128), (Single { bits: 0x4e6e_6b28 })),
        )
    }

    /// Wall clock per second of audio: below 1 is faster than realtime.
    pub open spec fn rate<R: Reals>(self, r: &R, seconds: Single) -> Single {
        r.over_single_of(Timing::secs(r, self.counted()), seconds.larger((Single { bits: 0x3089_705f })))
    }

    /// Wall clock per second of audio: below 1 is faster than realtime.
    pub fn realtime_factor<R: Reals>(&self, r: &R, seconds: Single) -> (answer: Single)
        requires
            r.repeatable(),
        ensures
            answer == self.rate(r, seconds),
    {
        let nanos: u128 = self.init as u128 + self.pursuit as u128;
        let span = r.plus_single(
            r.long_single((nanos / 1_000_000_000) as i128),
            r.over_single(r.long_single((nanos % 1_000_000_000) as i128), (Single { bits: 0x4e6e_6b28 })),
        );
        r.over_single(span, seconds.max((Single { bits: 0x3089_705f })))
    }
}

/// The rate counts the pursuit and not the dictionary, nor the residual analysis.
pub proof fn law_rate_leaves_out_the_dictionary<R: Reals>(r: &R, a: Timing, b: Timing, seconds: Single)
    requires
        a.init == b.init,
        a.pursuit == b.pursuit,
    ensures
        a.rate(r, seconds) == b.rate(r, seconds),
{
}

/// Lazy-refresh counters: frames given a bound, and frames that then had to be recomputed.
#[derive(Debug)]
pub struct Refresh {
    pub marked: usize,
    pub resolved: usize,
    pub per_block: Vec<(usize, usize)>,
    /// Decimated frames recomputed above their bound.
    pub undercuts: usize,
}

impl Default for Refresh {
    fn default() -> (r: Refresh)
        ensures
            r.marked == 0,
            r.resolved == 0,
            r.per_block@.len() == 0,
            r.undercuts == 0,
    {
        Refresh { marked: 0, resolved: 0, per_block: Vec::new(), undercuts: 0 }
    }
}

// ---------------------------------------------------------------------------------------------
// the excerpt
// ---------------------------------------------------------------------------------------------

/// The stretch of a signal an excerpt covers, or why there is none.
pub open spec fn cut<U: Units>(
    u: &U,
    len: int,
    sample_rate: Single,
    start: Option<Single>,
    duration: Option<Single>,
) -> Result<(int, int), Seq<char>> {
    let from = match start {
        Some(s) => s,
        None => Single { bits: 0 },
    };
    let begin = u.nearest_sample_of(from, sample_rate) as int;
    if start is None && duration is None {
        Ok((0, len))
    } else if !(from.finite() && (Single { bits: 0 }).at_most(from)) {
        Err("--start must be a non-negative number of seconds, got "@ + u.spelled_of(from))
    } else if begin >= len {
        Err(
            "--start "@ + u.spelled_of(from) + " s is at or past the end of the "@
                + u.spelled_span_of(len as usize, sample_rate) + " s input"@,
        )
    } else {
        match duration {
            None => Ok((begin, len)),
            Some(d) => {
                let n = u.nearest_sample_of(d, sample_rate) as int;
                if !(d.finite() && d.above_zero()) {
                    Err("--duration must be a positive number of seconds, got "@ + u.spelled_of(d))
                } else if n == 0 {
                    Err(
                        "--duration "@ + u.spelled_of(d) + " s is under one sample at "@
                            + u.spelled_rate_of(sample_rate) + " Hz"@,
                    )
                } else {
                    Ok(
                        (
                            begin,
                            if begin + n < len {
                                begin + n
                            } else {
                                len
                            },
                        ),
                    )
                }
            },
        }
    }
}

/// Cut `[start, start + duration)` out of the signal, in seconds.
///
/// Returns the sample offset the excerpt begins at along with the excerpt itself. `None` for either
/// bound means "the whole file" in that direction; the end is clamped to the file, so asking for more
/// seconds than remain is not an error, but starting past the end is.
pub fn excerpt<U: Units>(
    u: &U,
    samples: &[Single],
    sample_rate: Single,
    start: Option<Single>,
    duration: Option<Single>,
) -> (r: Result<(usize, Vec<Single>), String>)
    requires
        u.repeatable(),
    ensures
        match (cut(u, samples@.len() as int, sample_rate, start, duration), r) {
            (Ok((begin, end)), Ok((offset, got))) => offset == begin && got@ == samples@.subrange(
                begin,
                end,
            ),
            (Err(want), Err(why)) => why@ == want,
            _ => false,
        },
{
    let len: usize = samples.len();
    let (begin, end): (usize, usize) = if start.is_none() && duration.is_none() {
        (0, len)
    } else {
        let from = match start {
            Some(s) => s,
            None => Single { bits: 0 },
        };
        if !(from.is_finite() && (Single { bits: 0 }).le(from)) {
            let mut why = String::new();
            why.append("--start must be a non-negative number of seconds, got ");
            why.append(u.spelled(from).as_str());
            assert(why@ =~= "--start must be a non-negative number of seconds, got "@ + u.spelled_of(
                from,
            ));
            return Err(why);
        }
        let begin: usize = u.nearest_sample(from, sample_rate);
        if begin >= len {
            let mut why = String::new();
            why.append("--start ");
            why.append(u.spelled(from).as_str());
            why.append(" s is at or past the end of the ");
            why.append(u.spelled_span(len, sample_rate).as_str());
            why.append(" s input");
            assert(why@ =~= "--start "@ + u.spelled_of(from) + " s is at or past the end of the "@
                + u.spelled_span_of(len, sample_rate) + " s input"@);
            return Err(why);
        }
        let end: usize = match duration {
            None => len,
            Some(d) => {
                if !(d.is_finite() && d.is_above_zero()) {
                    let mut why = String::new();
                    why.append("--duration must be a positive number of seconds, got ");
                    why.append(u.spelled(d).as_str());
                    assert(why@ =~= "--duration must be a positive number of seconds, got "@
                        + u.spelled_of(d));
                    return Err(why);
                }
                let n: usize = u.nearest_sample(d, sample_rate);
                if n == 0 {
                    let mut why = String::new();
                    why.append("--duration ");
                    why.append(u.spelled(d).as_str());
                    why.append(" s is under one sample at ");
                    why.append(u.spelled_rate(sample_rate).as_str());
                    why.append(" Hz");
                    assert(why@ =~= "--duration "@ + u.spelled_of(d) + " s is under one sample at "@
                        + u.spelled_rate_of(sample_rate) + " Hz"@);
                    return Err(why);
                }
                if n < len - begin {
                    begin + n
                } else {
                    len
                }
            },
        };
        (begin, end)
    };
    Ok((begin, stretch(samples, begin, end)))
}

// ---------------------------------------------------------------------------------------------
// what the settings decide before the pursuit starts
// ---------------------------------------------------------------------------------------------

/// The window length a document insists on, if it does.
pub fn forced_core<U: Units>(u: &U, window_seconds: Single, sample_rate: Single) -> (r: Option<usize>)
    requires
        u.repeatable(),
    ensures
        r == insisted(u, window_seconds, sample_rate),
{
    if window_seconds.is_above_zero() {
        Some(u.samples(window_seconds, sample_rate))
    } else {
        None
    }
}

/// The blocks refinement can never refine, of the first `n`.
pub open spec fn pinned(supports: Seq<int>, limit: int, n: int) -> Seq<int>
    decreases n,
{
    if n <= 0 {
        seq![]
    } else if supports[n - 1] > limit {
        pinned(supports, limit, n - 1).push(n - 1)
    } else {
        pinned(supports, limit, n - 1)
    }
}

pub open spec fn supports(dict: Dictionary) -> Seq<int> {
    Seq::new(dict.blocks@.len(), |b: int| dict.blocks@[b].support())
}

/// Blocks whose support exceeds the longest atom refinement considers, and so can never be refined.
///
/// Refinement asks the envelope cache for the seed's own shape first, the cache refuses it, and
/// refinement declines. The atom is still selected: it is simply pinned to the grid.
pub fn unrefinable_blocks(dict: &Dictionary, cfg: &MpConfig) -> (r: Vec<usize>)
    ensures
        cfg.refine.enabled ==> Seq::new(r@.len(), |i: int| r@[i] as int) == pinned(
            supports(*dict),
            cfg.refine.max_atom_samples as int,
            dict.blocks@.len() as int,
        ),
        !cfg.refine.enabled ==> r@.len() == 0,
        forall|i: int| 0 <= i < r@.len() ==> #[trigger] r@[i] < dict.blocks@.len(),
{
    let mut out: Vec<usize> = Vec::new();
    if !cfg.refine.enabled {
        return out;
    }
    let ghost lens = supports(*dict);
    let limit: usize = cfg.refine.max_atom_samples;
    let mut b: usize = 0;
    while b < dict.blocks.len()
        invariant
            b <= dict.blocks@.len(),
            lens == supports(*dict),
            Seq::new(out@.len(), |i: int| out@[i] as int) == pinned(lens, limit as int, b as int),
            forall|i: int| 0 <= i < out@.len() ==> #[trigger] out@[i] < dict.blocks@.len(),
        decreases dict.blocks@.len() - b,
    {
        let ghost before = out@;
        if dict.blocks[b].support_len() > limit {
            out.push(b);
            assert(Seq::new(out@.len(), |i: int| out@[i] as int) =~= Seq::new(
                before.len(),
                |i: int| before[i] as int,
            ).push(b as int));
        }
        b += 1;
    }
    out
}

/// The dictionary a document's settings give at a sample rate, once they are found usable.
pub fn dictionary_at<R: Reals, U: Units, B: BankMath, D, T>(
    r: &R,
    u: &U,
    bank: &B,
    config: &Config,
    sample_rate: Single,
    render: &D,
    transform: &T,
) -> (answer: Result<Dictionary, String>) where
    D: Fn(Shape, Single) -> Result<Envelope, FofError>,
    T: Fn(Vec<Single>) -> Vec<Bin>,
    requires
        r.repeatable(),
        u.repeatable(),
        bank.repeatable(),
        renders(*render),
        real_transform(*transform),
        config.dictionary.fof.alphas@.len() * config.dictionary.fof.betas_ms@.len() <= usize::MAX,
    ensures
        match settings_refusal(u, bank, *config) {
            Some(told) => answer matches Err(why) && why@ == told,
            None => exists|built: Result<Dictionary, FofError>|
                {
                    &&& #[trigger] dictionary_built(
                        r,
                        config.all_shapes(u),
                        sample_rate,
                        config.blocks_config(u),
                        *render,
                        *transform,
                        built,
                    )
                    &&& match built {
                        Ok(dict) => answer == Ok::<Dictionary, String>(dict),
                        Err(e) => answer matches Err(why) && why@ == "building the dictionary: "@
                            + e.told(),
                    }
                },
        },
{
    match config.validate(u, bank) {
        Ok(_) => {},
        Err(why) => {
            return Err(why);
        },
    }
    let shapes = config.dictionary_shapes(u);
    let blocks = config.block_config(u);
    let built = Dictionary::from_shapes(r, shapes.as_slice(), sample_rate, &blocks, render, transform);
    let ghost shown = built;
    assert(dictionary_built(
        r,
        config.all_shapes(u),
        sample_rate,
        config.blocks_config(u),
        *render,
        *transform,
        shown,
    ));
    match built {
        Ok(dict) => Ok(dict),
        Err(e) => {
            let mut why = String::new();
            why.append("building the dictionary: ");
            why.append(e.message());
            assert(why@ =~= "building the dictionary: "@ + e.told());
            Err(why)
        },
    }
}

// ---------------------------------------------------------------------------------------------
// one analysis
// ---------------------------------------------------------------------------------------------

/// What to decompose, and how.
pub struct AnalysisRequest<'a> {
    /// The excerpt itself, already cut.
    pub signal: &'a [Single],
    pub sample_rate: Single,
    /// Where that excerpt began in its source, in samples.
    pub offset: usize,
    pub config: &'a Config,
    /// Resolved residual settings, or `None` to skip the stage.
    pub residual: Option<&'a ResidualAnalysisConfig>,
}

/// Something the pipeline has to say while it is still working.
pub enum Event<'a> {
    /// The dictionary is built, in so many nanoseconds.
    Dictionary { dict: &'a Dictionary, elapsed: u64 },
    /// The signal will be decomposed a window at a time. Not said of a single window.
    Windows { plan: &'a WindowPlan },
    /// One window is finished. `atoms` is the running total over the whole clip.
    Window { index: usize, of: usize, atoms: usize },
}

/// What an event says.
pub enum Said {
    Dictionary { dict: Dictionary, elapsed: u64 },
    Windows { plan: WindowPlan },
    Window { index: usize, of: usize, atoms: usize },
}

impl<'a> Event<'a> {
    pub open spec fn said(self) -> Said {
        match self {
            Event::Dictionary { dict, elapsed } => Said::Dictionary { dict: *dict, elapsed },
            Event::Windows { plan } => Said::Windows { plan: *plan },
            Event::Window { index, of, atoms } => Said::Window { index, of, atoms },
        }
    }
}

/// How a front end watches a run.
pub trait Reporter {
    /// Everything heard, in order.
    spec fn heard(&self) -> Seq<Said>;

    fn event(&mut self, e: Event<'_>)
        ensures
            final(self).heard() == old(self).heard().push(e.said()),
    ;
}

/// A front end that hands on what it hears.
pub struct Listener<P: Fn(Event<'_>)> {
    tell: P,
    heard: Ghost<Seq<Said>>,
}

impl<P: Fn(Event<'_>)> Listener<P> {
    #[verifier::type_invariant]
    spec fn hears(&self) -> bool {
        forall|e: Event<'_>| #[trigger] call_requires(self.tell, (e,))
    }

    /// What is behind it was called with an event, and returned.
    pub closed spec fn handed_on(&self, e: Event<'_>) -> bool {
        call_ensures(self.tell, (e,), ())
    }

    pub fn new(tell: P) -> (r: Listener<P>)
        requires
            forall|e: Event<'_>| #[trigger] call_requires(tell, (e,)),
        ensures
            r.heard() == Seq::<Said>::empty(),
    {
        Listener { tell, heard: Ghost(Seq::empty()) }
    }
}

impl<P: Fn(Event<'_>)> Reporter for Listener<P> {
    closed spec fn heard(&self) -> Seq<Said> {
        self.heard@
    }

    fn event(&mut self, e: Event<'_>)
        ensures
            old(self).handed_on(e),
    {
        proof {
            use_type_invariant(&*self);
        }
        let ghost said = self.heard@.push(e.said());
        (self.tell)(e);
        self.heard = Ghost(said);
    }
}

/// What a front end lends an analysis.
pub struct Front<U, B, D, K> {
    pub units: U,
    /// The residual bank's arithmetic.
    pub bank: B,
    /// Render a shape at a sample rate.
    pub render: D,
    /// Nanoseconds on a clock.
    pub clock: K,
}

impl<U, B, D, K> Front<U, B, D, K> where
    U: Units,
    B: BankMath + Sync,
    D: Fn(Shape, Single) -> Result<Envelope, FofError>,
    K: Fn() -> u64,
{
    /// Everything lent is defined everywhere, and nothing renders as no samples at all.
    pub open spec fn ready(&self) -> bool {
        &&& self.units.repeatable()
        &&& self.bank.repeatable()
        &&& renders(self.render)
        &&& forall|shape: Shape, sample_rate: Single, env: Envelope| #[trigger]
            call_ensures(self.render, (shape, sample_rate), Ok::<Envelope, FofError>(env))
                ==> env.samples@.len() >= 1
        &&& call_requires(self.clock, ())
    }
}

/// Everything one analysis produced.
pub struct Analysis {
    pub book: Book,
    /// What the decomposition could not explain: the pursuit's own working buffer.
    pub residual: Vec<Single>,
    /// The analysis of that residue, when one was asked for.
    pub residual_book: Option<ResidualBook>,
    /// The dictionary the pursuit ran against.
    pub dict: Dictionary,
    pub timing: Timing,
    pub refresh: Refresh,
    /// The run was called off. The book is whatever had been selected by then.
    pub cancelled: bool,
}

/// The memory a document allows the frame tables, in bytes.
pub open spec fn memory(config: Config) -> usize {
    config.pursuit.max_memory_mb << 20
}

/// The core length a document insists on, if it does.
pub open spec fn insisted<U: Units>(u: &U, window_seconds: Single, sample_rate: Single) -> Option<usize> {
    if window_seconds.above_zero() {
        Some(u.samples_of(window_seconds, sample_rate))
    } else {
        None
    }
}

/// An analysis hands over a run's results.
pub open spec fn handed_over<R: Reals, K: Fn() -> u64>(
    r: &R,
    clock: &K,
    req: AnalysisRequest<'_>,
    dict: Dictionary,
    run: WindowedRun,
    a: Analysis,
) -> bool {
    &&& a.book.initial_energy == energy_of(r, req.signal@, req.signal@.len() as int)
    &&& a.book.sample_rate == req.sample_rate
    &&& a.book.start_sample == req.offset
    &&& a.book.selections@ == run.selections@
    &&& a.residual@ == run.residual@
    &&& a.dict == dict
    &&& a.refresh.marked == run.marked
    &&& a.refresh.resolved == run.resolved
    &&& a.refresh.per_block@ == run.per_block@
    &&& a.refresh.undercuts == 0
    &&& timed(clock, 0, a.timing.dictionary as int)
    &&& a.timing.init == run.init
    &&& exists|elapsed: u64|
        {
            &&& #[trigger] timed(clock, 0, elapsed as int)
            &&& a.timing.pursuit == if elapsed >= run.init {
                elapsed - run.init
            } else {
                0
            }
        }
}

/// What follows a run: the residual's own analysis where one was asked for, strictly after the
/// pursuit and on the pursuit's own residual buffer.
pub open spec fn followed_up<R: Reals, B: BankMath, K: Fn() -> u64>(
    r: &R,
    bank: &B,
    clock: &K,
    req: AnalysisRequest<'_>,
    dict: Dictionary,
    run: WindowedRun,
    answer: Result<Analysis, String>,
) -> bool {
    match req.residual {
        None => {
            &&& answer matches Ok(a)
            &&& handed_over(r, clock, req, dict, run, a)
            &&& a.residual_book is None
            &&& a.timing.residual == 0
        },
        Some(cfg) => exists|got: Result<ResidualBook, ResidualAnalysisError>|
            {
                &&& #[trigger] residual_analysed(
                    bank,
                    run.residual@,
                    r.widen_of(req.sample_rate),
                    req.offset as u64,
                    *cfg,
                    got,
                )
                &&& match got {
                    Ok(book) => {
                        &&& answer matches Ok(a)
                        &&& handed_over(r, clock, req, dict, run, a)
                        &&& a.residual_book == Some(book)
                        &&& timed(clock, 0, a.timing.residual as int)
                    },
                    Err(e) => answer matches Err(why) && why@ == "residual analysis: "@ + told(
                        bank,
                        e,
                    ),
                }
            },
    }
}

/// A dictionary built of anything but empty renders can be pursued.
proof fn lemma_pursuable<R: Reals, D, T>(
    r: &R,
    shapes: Seq<Shape>,
    sample_rate: Single,
    cfg: BlockConfig,
    render: &D,
    transform: &T,
    built: Result<Dictionary, FofError>,
    len: int,
) where D: Fn(Shape, Single) -> Result<Envelope, FofError>, T: Fn(Vec<Single>) -> Vec<Bin>
    requires
        dictionary_built(r, shapes, sample_rate, cfg, *render, *transform, built),
        forall|shape: Shape, sample_rate: Single, env: Envelope| #[trigger]
            call_ensures(*render, (shape, sample_rate), Ok::<Envelope, FofError>(env))
                ==> env.samples@.len() >= 1,
        len <= i64::MAX,
    ensures
        built matches Ok(dict) ==> pursuable(&dict, len),
{
    if let Ok(dict) = built {
        let attempts = choose|attempts: Seq<Result<Block, FofError>>|
            {
                &&& attempts.len() == shapes.len()
                &&& forall|i: int|
                    0 <= i < attempts.len() ==> shape_built(
                        r,
                        shapes[i],
                        sample_rate,
                        cfg,
                        *render,
                        *transform,
                        #[trigger] attempts[i],
                    )
                &&& #[trigger] is_dictionary(attempts, sample_rate, built)
            };
        assert forall|b: int| 0 <= b < dict.blocks@.len() implies {
            &&& scannable(#[trigger] dict.blocks@[b])
            &&& dict.blocks@[b].support() >= 1
        } by {
            lemma_built_block(attempts, attempts.len() as int, b);
            let j = choose|j: int|
                0 <= j < attempts.len() && #[trigger] attempts[j] == Ok::<Block, FofError>(
                    dict.blocks@[b],
                );
            assert(shape_built(
                r,
                shapes[j],
                sample_rate,
                cfg,
                *render,
                *transform,
                attempts[j],
            ));
        }
    }
}

/// Two readings of a clock, and the time between them.
proof fn lemma_timed<K: Fn() -> u64>(clock: &K, from: u64, to: u64, between: u64)
    requires
        call_ensures(*clock, (), from),
        call_ensures(*clock, (), to),
        between == if to >= from {
            to - from
        } else {
            0
        },
    ensures
        timed(clock, 0, between as int),
{
    assert(between == spent(0, from, to));
}

/// Analyse a run's residual where that was asked for, and hand everything over.
fn finish<R: Reals, B: BankMath + Sync, K: Fn() -> u64>(
    r: &R,
    bank: &B,
    clock: &K,
    req: &AnalysisRequest<'_>,
    dict: Dictionary,
    run: WindowedRun,
    timing: Timing,
    Ghost(elapsed): Ghost<u64>,
) -> (answer: Result<Analysis, String>)
    requires
        r.repeatable(),
        bank.repeatable(),
        call_requires(*clock, ()),
        run.residual@.len() == req.signal@.len(),
        req.residual matches Some(cfg) ==> (cfg.update_samples >= 1 ==> up(
            req.signal@.len() as int,
            cfg.update_samples as int,
        ) * cfg.erb.bands <= usize::MAX),
        timed(clock, 0, timing.dictionary as int),
        timed(clock, 0, elapsed as int),
        timing.init == run.init,
        timing.pursuit == if elapsed >= run.init {
            elapsed - run.init
        } else {
            0
        },
        timing.residual == 0,
    ensures
        followed_up(r, bank, clock, *req, dict, run, answer),
        answer matches Ok(a) ==> a.timing.dictionary == timing.dictionary,
{
    let mut timing = timing;
    let mut residual_book: Option<ResidualBook> = None;
    if let Some(cfg) = req.residual {
        let from = clock();
        let got = analyze_residual(
            bank,
            run.residual.as_slice(),
            r.widen(req.sample_rate),
            req.offset as u64,
            cfg,
        );
        let to = clock();
        timing.residual = to.saturating_sub(from);
        let ghost shown = got;
        proof {
            lemma_timed(clock, from, to, timing.residual);
            assert(residual_analysed(
                bank,
                run.residual@,
                r.widen_of(req.sample_rate),
                req.offset as u64,
                *cfg,
                shown,
            ));
        }
        match got {
            Ok(book) => {
                residual_book = Some(book);
            },
            Err(e) => {
                let mut why = String::new();
                why.append("residual analysis: ");
                why.append(e.message(bank).as_str());
                assert(why@ =~= "residual analysis: "@ + told(bank, e));
                return Err(why);
            },
        }
    }
    let mut book = Book::new(energy(r, req.signal), req.sample_rate);
    book.start_sample = req.offset as u64;
    book.selections = run.selections;
    let a = Analysis {
        book,
        residual: run.residual,
        residual_book,
        dict,
        timing,
        refresh: Refresh {
            marked: run.marked,
            resolved: run.resolved,
            per_block: run.per_block,
            undercuts: 0,
        },
        cancelled: false,
    };
    assert(handed_over(r, clock, *req, dict, run, a));
    Ok(a)
}

/// Calling a run off changes nothing of what it hands over.
proof fn lemma_called_off<R: Reals, B: BankMath, K: Fn() -> u64>(
    r: &R,
    bank: &B,
    clock: &K,
    req: AnalysisRequest<'_>,
    dict: Dictionary,
    run: WindowedRun,
    a: Analysis,
    cancelled: bool,
)
    requires
        followed_up(r, bank, clock, req, dict, run, Ok::<Analysis, String>(a)),
    ensures
        followed_up(
            r,
            bank,
            clock,
            req,
            dict,
            run,
            Ok::<Analysis, String>(Analysis { cancelled, ..a }),
        ),
{
    let b = Analysis { cancelled, ..a };
    assert(handed_over(r, clock, req, dict, run, a) ==> handed_over(r, clock, req, dict, run, b));
}

impl<R, E, G, M, V, T, J, S, N, C> Kit<R, E, G, M, V, T, J, S, N, C> where
    R: Reals + Sync,
    E: Fn(Shape) -> Option<Rendered> + Sync,
    G: Fn(&[Single], Params, &Rendered, Option<Gram>) -> Double + Sync,
    M: Fn(&Rendered, Single) -> Gram + Sync,
    V: Fn(&[Single], Params, &Rendered) -> Option<Projection> + Sync,
    T: Fn(Vec<Single>) -> Vec<Bin> + Sync,
    J: Fn(&[Single], Candidate) -> Option<Verdict>,
    S: Fn(AtomParams) -> Option<Vec<Single>>,
    N: Fn(Double, Double) -> Single,
    C: Fn() -> bool,
{
    /// Building the dictionary came to this.
    pub open spec fn prepared<U, B, D, K>(
        &self,
        front: &Front<U, B, D, K>,
        req: AnalysisRequest<'_>,
        built: Result<Dictionary, FofError>,
    ) -> bool where
        U: Units,
        B: BankMath + Sync,
        D: Fn(Shape, Single) -> Result<Envelope, FofError>,
        K: Fn() -> u64,
    {
        dictionary_built(
            &self.scorer.reals,
            req.config.all_shapes(&front.units),
            req.sample_rate,
            req.config.blocks_config(&front.units),
            front.render,
            self.transform,
            built,
        )
    }

    /// The pursuit over a dictionary came to this.
    pub open spec fn pursued<U, B, D, K>(
        &self,
        front: &Front<U, B, D, K>,
        req: AnalysisRequest<'_>,
        dict: Dictionary,
        plan: WindowPlan,
        run: WindowedRun,
        told: Seq<Said>,
    ) -> bool where
        U: Units,
        B: BankMath + Sync,
        D: Fn(Shape, Single) -> Result<Envelope, FofError>,
        K: Fn() -> u64,
    {
        let cfg = req.config.pursuit_config(&front.units);
        &&& planned(
            &self.scorer.reals,
            dict,
            req.signal@.len() as int,
            cfg,
            memory(*req.config),
            insisted(&front.units, req.config.pursuit.window_seconds, req.sample_rate),
            plan,
        )
        &&& self.is_windowed_run(&dict, req.signal@, cfg, plan, &front.clock, run, told)
    }

    /// One analysis: the dictionary, the windows, the pursuit in each, and what is left over; and what
    /// was said of it on the way. The dictionary is told once it is built, the plan where there are
    /// several windows, and then each window as it is done.
    pub open spec fn analysed<U, B, D, K>(
        &self,
        front: &Front<U, B, D, K>,
        req: AnalysisRequest<'_>,
        answer: Result<Analysis, String>,
        said: Seq<Said>,
    ) -> bool where
        U: Units,
        B: BankMath + Sync,
        D: Fn(Shape, Single) -> Result<Envelope, FofError>,
        K: Fn() -> u64,
    {
        exists|built: Result<Dictionary, FofError>|
            {
                &&& #[trigger] self.prepared(front, req, built)
                &&& match built {
                    Err(e) => {
                        &&& answer matches Err(why)
                        &&& why@ == "building dictionary: "@ + e.told()
                        &&& said == Seq::<Said>::empty()
                    },
                    Ok(dict) => exists|
                        plan: WindowPlan,
                        run: WindowedRun,
                        told: Seq<Said>,
                        elapsed: u64,
                    |
                        {
                            &&& #[trigger] self.pursued(front, req, dict, plan, run, told)
                            &&& #[trigger] timed(&front.clock, 0, elapsed as int)
                            &&& said == seq![Said::Dictionary { dict, elapsed }] + (if plan.count > 1 {
                                seq![Said::Windows { plan }]
                            } else {
                                Seq::<Said>::empty()
                            }) + told
                            &&& answer matches Ok(a) ==> a.timing.dictionary == elapsed
                            &&& followed_up(
                                &self.scorer.reals,
                                &front.bank,
                                &front.clock,
                                req,
                                dict,
                                run,
                                answer,
                            )
                            &&& answer matches Ok(a) ==> call_ensures(
                                self.cancel,
                                (),
                                a.cancelled,
                            )
                        },
                }
            }
    }

    /// Decompose one excerpt.
    ///
    /// The residual analysis is strictly after the pursuit: it cannot change which atoms were
    /// selected. `report` hears of the dictionary, of the windows where there are several, and of each
    /// window as it is done.
    pub fn analyse<U, B, D, K, P>(
        &self,
        front: &Front<U, B, D, K>,
        req: AnalysisRequest<'_>,
        report: &mut P,
    ) -> (answer: Result<Analysis, String>) where
        U: Units,
        B: BankMath + Sync,
        D: Fn(Shape, Single) -> Result<Envelope, FofError>,
        K: Fn() -> u64,
        P: Reporter,
        requires
            self.ready(),
            front.ready(),
            req.signal@.len() <= i64::MAX,
            req.config.pursuit.candidate_count >= 1,
            req.config.dictionary.fof.alphas@.len() * req.config.dictionary.fof.betas_ms@.len()
                <= usize::MAX,
            req.residual matches Some(cfg) ==> (cfg.update_samples >= 1 ==> up(
                req.signal@.len() as int,
                cfg.update_samples as int,
            ) * cfg.erb.bands <= usize::MAX),
        ensures
            exists|said: Seq<Said>|
                {
                    &&& final(report).heard() == old(report).heard() + said
                    &&& #[trigger] self.analysed(front, req, answer, said)
                },
    {
        let ghost known = report.heard();
        let r = &self.scorer.reals;
        let u = &front.units;
        let clock = &front.clock;
        let shapes = req.config.dictionary_shapes(u);
        let blocks = req.config.block_config(u);
        let from = clock();
        let built = Dictionary::from_shapes(
            r,
            shapes.as_slice(),
            req.sample_rate,
            &blocks,
            &front.render,
            &self.transform,
        );
        let to = clock();
        let spent_building: u64 = to.saturating_sub(from);
        proof {
            lemma_timed(clock, from, to, spent_building);
            lemma_pursuable(
                r,
                shapes@,
                req.sample_rate,
                blocks,
                &front.render,
                &self.transform,
                built,
                req.signal@.len() as int,
            );
        }
        let ghost shown = built;
        assert(self.prepared(front, req, shown));
        let dict = match built {
            Ok(dict) => dict,
            Err(e) => {
                let mut why = String::new();
                why.append("building dictionary: ");
                why.append(e.message());
                proof {
                    assert(why@ =~= "building dictionary: "@ + e.told());
                    let said = Seq::<Said>::empty();
                    assert(report.heard() =~= known + said);
                    assert(self.analysed(front, req, Err(why), said));
                }
                return Err(why);
            },
        };
        report.event(Event::Dictionary { dict: &dict, elapsed: spent_building });
        let cfg = req.config.mp_config(u);
        let budget: usize = req.config.pursuit.max_memory_mb << 20;
        let core = forced_core(u, req.config.pursuit.window_seconds, req.sample_rate);
        let plan = WindowPlan::new(r, &dict, req.signal.len(), &cfg, budget, core);
        if plan.count > 1 {
            report.event(Event::Windows { plan: &plan });
        }
        let ghost opened = report.heard();
        let signal = stretch(req.signal, 0, req.signal.len());
        assert(signal@ =~= req.signal@);
        let from = clock();
        let run = self.run_windowed(&dict, signal, &cfg, &plan, clock, report);
        let to = clock();
        let elapsed: u64 = to.saturating_sub(from);
        proof {
            lemma_timed(clock, from, to, elapsed);
        }
        let ghost ran = run;
        let ghost dict_shown = dict;
        let ghost told = choose|told: Seq<Said>|
            {
                &&& report.heard() == opened + told
                &&& #[trigger] self.is_windowed_run(&dict, req.signal@, cfg, plan, clock, run, told)
            };
        let ghost said = seq![Said::Dictionary { dict, elapsed: spent_building }] + (if plan.count > 1 {
            seq![Said::Windows { plan }]
        } else {
            Seq::<Said>::empty()
        }) + told;
        proof {
            assert(self.pursued(front, req, dict, plan, ran, told));
            assert(report.heard() =~= known + said);
        }
        let mut timing = Timing::default();
        timing.dictionary = spent_building;
        timing.pursued(elapsed, run.init);
        let answer = finish(r, &front.bank, clock, &req, dict, run, timing, Ghost(elapsed));
        match answer {
            Ok(mut a) => {
                let cancelled = (self.cancel)();
                proof {
                    lemma_called_off(r, &front.bank, clock, req, dict_shown, ran, a, cancelled);
                }
                a.cancelled = cancelled;
                assert(self.analysed(front, req, Ok(a), said));
                Ok(a)
            },
            Err(why) => {
                assert(self.analysed(front, req, Err(why), said));
                Err(why)
            },
        }
    }
}

} // verus!
