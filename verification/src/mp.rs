//! The pursuit's frame tables, and their lazy update.
//!
//! # What is stored
//!
//! Only two values per frame: its best projected energy and the bin that achieved it.
//!
//! # The local update
//!
//! Subtracting an atom over `[tau, tau + len)` can only change frames whose read window overlaps it.
//! Frame `n` of a block reads `[n * hop, n * hop + support)`, so the stale frames are a run that
//! [`Mp::stale_range`] gives.
//!
//! # The lazy update
//!
//! A stale frame is not recomputed; it is *bounded*. The table holds an upper bound on its energy and
//! the frame is marked dirty. Nothing is transformed until a dirty frame's bound reaches the top of
//! the table, and then only that frame is recomputed: see [`Mp::top_candidates`].
//!
//! The seeds are those the eager update would give: a bound is never below the true value, so once
//! every frame at or above the weakest seed is exact, nothing dirty can outrank or shadow a seed. See
//! [`law_lazy_seeds_are_the_eager_ones`].

use crate::cand::{
    distinct_blocks, first, indexable, is_max, law_blocks_separately_is_one_scan,
    law_masking_is_exact, law_selection, lemma_views, peak, seed_at, selection, settled, top_seeds,
    views, FrameTable, FrameView, Seed,
};
use crate::dict::{frames, law_frames_cover_the_signal, Block, Dictionary};
use crate::ieee::{Double, Single, NEG_INFINITY};
use crate::pool::spread;
use crate::reals::Reals;
use rayon::prelude::{IntoParallelRefIterator, ParallelIterator};
use vstd::prelude::*;

verus! {

/// Frames below which collecting the dirty frames stays on one thread.
pub const PARALLEL_SCAN_FRAMES: usize = 8192;

/// Stale frames below which bounding them stays on one thread.
pub const PARALLEL_BOUND_FRAMES: usize = 1024;

/// Per-block frame table.
pub struct BlockState {
    /// Best projected energy per frame, or, where `dirty`, an upper bound on it.
    pub energy: Vec<Double>,
    /// Bin achieving that energy. Stale wherever `dirty`.
    pub bin: Vec<u32>,
    /// Frames holding a bound rather than an exact value.
    pub dirty: Vec<bool>,
    /// Running maxima of the envelope from the left and from the right, and where it peaks.
    pub env_prefix_max: Vec<Single>,
    pub env_suffix_max: Vec<Single>,
    pub env_peak: usize,
    /// The smallest eigenvalue of any live bin's Gram.
    pub lambda_min: Double,
}

/// The running maximum of `env` from the left, at `i`.
pub open spec fn prefix_max(env: Seq<Single>, i: int) -> Single
    decreases i,
{
    if i <= 0 {
        env[0]
    } else {
        env[i].larger(prefix_max(env, i - 1))
    }
}

/// The running maximum of `env` from the right, at `i`.
pub open spec fn suffix_max(env: Seq<Single>, i: int) -> Single
    decreases env.len() - i,
{
    if i >= env.len() - 1 {
        env[env.len() - 1]
    } else {
        env[i].larger(suffix_max(env, i + 1))
    }
}

/// The first place among the first `n` where `env` is above everything before it, found by keeping
/// the best so far from negative infinity.
pub open spec fn peak_of(env: Seq<Single>, n: int) -> (int, Single)
    decreases n,
{
    if n <= 0 {
        (0, Single { bits: 0xff80_0000 })
    } else {
        let (i, v) = peak_of(env, n - 1);
        if v.less(env[n - 1]) {
            (n - 1, env[n - 1])
        } else {
            (i, v)
        }
    }
}

/// No sample is NaN, as in every rendered envelope.
pub open spec fn numbers(env: Seq<Single>) -> bool {
    forall|i: int| 0 <= i < env.len() ==> !(#[trigger] env[i]).nan()
}

impl BlockState {
    pub open spec fn wf(&self, frames: int, env: Seq<Single>) -> bool {
        &&& self.energy@.len() == frames
        &&& self.bin@.len() == frames
        &&& self.dirty@.len() == frames
        &&& self.env_prefix_max@.len() == env.len()
        &&& self.env_suffix_max@.len() == env.len()
        &&& forall|i: int|
            0 <= i < env.len() ==> #[trigger] self.env_prefix_max@[i] == prefix_max(env, i)
        &&& forall|i: int|
            0 <= i < env.len() ==> #[trigger] self.env_suffix_max@[i] == suffix_max(env, i)
        &&& self.env_peak == peak_of(env, env.len() as int).0
    }

    /// A table of exact frames, from one scan of each.
    pub fn new(scan: &[(u32, Double)], env: &[Single], lambda_min: Double) -> (r: BlockState)
        requires
            env@.len() >= 1,
        ensures
            r.wf(scan@.len() as int, env@),
            forall|n: int| 0 <= n < scan@.len() ==> #[trigger] r.energy@[n] == scan@[n].1,
            forall|n: int| 0 <= n < scan@.len() ==> #[trigger] r.bin@[n] == scan@[n].0,
            forall|n: int| 0 <= n < scan@.len() ==> !#[trigger] r.dirty@[n],
            r.lambda_min == lambda_min,
    {
        let mut energy: Vec<Double> = Vec::new();
        let mut bin: Vec<u32> = Vec::new();
        let mut dirty: Vec<bool> = Vec::new();
        let mut n: usize = 0;
        while n < scan.len()
            invariant
                n <= scan@.len(),
                energy@.len() == n,
                bin@.len() == n,
                dirty@.len() == n,
                forall|j: int| 0 <= j < n ==> #[trigger] energy@[j] == scan@[j].1,
                forall|j: int| 0 <= j < n ==> #[trigger] bin@[j] == scan@[j].0,
                forall|j: int| 0 <= j < n ==> !#[trigger] dirty@[j],
            decreases scan@.len() - n,
        {
            let (k, e) = scan[n];
            energy.push(e);
            bin.push(k);
            dirty.push(false);
            n += 1;
        }
        let len: usize = env.len();
        let mut prefix: Vec<Single> = Vec::new();
        prefix.push(env[0]);
        let mut peak: usize = 0;
        let mut best = Single { bits: 0xff80_0000 };
        let mut i: usize = 0;
        while i < len
            invariant
                i <= len,
                len == env@.len(),
                len >= 1,
                prefix@.len() == if i == 0 {
                    1
                } else {
                    i as int
                },
                prefix@[0] == env@[0],
                forall|j: int| 0 <= j < prefix@.len() ==> #[trigger] prefix@[j] == prefix_max(env@, j),
                (peak as int, best) == peak_of(env@, i as int),
            decreases len - i,
        {
            if i > 0 {
                let next = env[i].max(prefix[i - 1]);
                prefix.push(next);
            }
            if best.lt(env[i]) {
                peak = i;
                best = env[i];
            }
            i += 1;
        }
        let mut suffix: Vec<Single> = Vec::new();
        let mut j: usize = 0;
        while j < len
            invariant
                j <= len,
                len == env@.len(),
                suffix@.len() == j,
                forall|x: int| 0 <= x < j ==> #[trigger] suffix@[x] == env@[x],
            decreases len - j,
        {
            suffix.push(env[j]);
            j += 1;
        }
        let mut i: usize = len - 1;
        while i > 0
            invariant
                i < len,
                len == env@.len(),
                suffix@.len() == len,
                forall|x: int| 0 <= x < i ==> #[trigger] suffix@[x] == env@[x],
                forall|x: int| i <= x < len ==> #[trigger] suffix@[x] == suffix_max(env@, x),
            decreases i,
        {
            i -= 1;
            let here = suffix[i].max(suffix[i + 1]);
            suffix.set(i, here);
        }
        BlockState {
            energy,
            bin,
            dirty,
            env_prefix_max: prefix,
            env_suffix_max: suffix,
            env_peak: peak,
            lambda_min,
        }
    }

    /// An upper bound on the envelope over indices `[s, e)`.
    ///
    /// Exact when the range contains the peak; otherwise the range lies on one flank, and the running
    /// maximum from that flank's end is at least the range's own. See [`law_env_max_bounds`].
    pub fn env_max(&self, s: usize, e: usize) -> (r: Single)
        requires
            s < e <= self.env_prefix_max@.len(),
            self.env_prefix_max@.len() == self.env_suffix_max@.len(),
        ensures
            r == self.bound_over(s as int, e as int),
    {
        if s <= self.env_peak && self.env_peak < e {
            self.env_prefix_max[self.env_peak]
        } else if s > self.env_peak {
            self.env_suffix_max[s]
        } else {
            self.env_prefix_max[e - 1]
        }
    }

    pub open spec fn bound_over(&self, s: int, e: int) -> Single {
        if s <= self.env_peak < e {
            self.env_prefix_max@[self.env_peak as int]
        } else if s > self.env_peak {
            self.env_suffix_max@[s]
        } else {
            self.env_prefix_max@[e - 1]
        }
    }

    /// Write one frame of the table.
    fn put(&mut self, n: usize, energy: Double, bin: u32, dirty: bool)
        requires
            n < old(self).energy@.len(),
            n < old(self).bin@.len(),
            n < old(self).dirty@.len(),
        ensures
            final(self).energy@ == old(self).energy@.update(n as int, energy),
            final(self).bin@ == old(self).bin@.update(n as int, bin),
            final(self).dirty@ == old(self).dirty@.update(n as int, dirty),
            final(self).same_envelope(*old(self)),
    {
        self.energy.set(n, energy);
        self.bin.set(n, bin);
        self.dirty.set(n, dirty);
    }

    pub open spec fn same_envelope(&self, other: BlockState) -> bool {
        &&& self.env_prefix_max@ == other.env_prefix_max@
        &&& self.env_suffix_max@ == other.env_suffix_max@
        &&& self.env_peak == other.env_peak
        &&& self.lambda_min == other.lambda_min
    }
}

proof fn lemma_prefix_max(env: Seq<Single>, i: int, j: int)
    requires
        numbers(env),
        0 <= j <= i < env.len(),
    ensures
        !prefix_max(env, i).nan(),
        env[j].at_most(prefix_max(env, i)),
    decreases i,
{
    assert(!env[i].nan());
    assert(!env[j].nan());
    if i > 0 {
        lemma_prefix_max(env, i - 1, if j < i {
            j
        } else {
            i - 1
        });
    }
}

proof fn lemma_suffix_max(env: Seq<Single>, i: int, j: int)
    requires
        numbers(env),
        0 <= i <= j < env.len(),
    ensures
        !suffix_max(env, i).nan(),
        env[j].at_most(suffix_max(env, i)),
    decreases env.len() - i,
{
    assert(!env[i].nan());
    assert(!env[j].nan());
    if i < env.len() - 1 {
        lemma_suffix_max(env, i + 1, if j > i {
            j
        } else {
            i + 1
        });
    }
}

proof fn lemma_peak_of(env: Seq<Single>, n: int)
    requires
        numbers(env),
        0 <= n <= env.len(),
    ensures
        ({
            let (i, v) = peak_of(env, n);
            &&& !v.nan()
            &&& n > 0 ==> 0 <= i < n
            &&& forall|j: int| 0 <= j < n ==> (#[trigger] env[j]).at_most(v)
            &&& v.bits == 0xff80_0000 || (0 <= i < n && v == env[i])
        }),
    decreases n,
{
    if n > 0 {
        lemma_peak_of(env, n - 1);
        assert(!env[n - 1].nan());
    }
}

/// The bound holds over its whole range, and is reached where the range contains the peak.
pub proof fn law_env_max_bounds(st: BlockState, env: Seq<Single>, frames: int, s: int, e: int, j: int)
    requires
        st.wf(frames, env),
        numbers(env),
        0 <= s <= j < e <= env.len(),
    ensures
        env[j].at_most(st.bound_over(s, e)),
        s <= st.env_peak < e ==> exists|x: int|
            s <= x < e && #[trigger] env[x].at_most(st.bound_over(s, e)) && st.bound_over(
                s,
                e,
            ).at_most(env[x]),
{
    lemma_peak_of(env, env.len() as int);
    let p = st.env_peak as int;
    if s <= p < e {
        lemma_prefix_max(env, p, p);
        let (i, v) = peak_of(env, env.len() as int);
        assert(env[j].at_most(v));
        assert(env[p].at_most(v));
        if v.bits == 0xff80_0000 {
            assert(v.at_most(env[j]));
        }
        lemma_prefix_le(env, p, v);
        assert(st.env_prefix_max@[p] == prefix_max(env, p));
        assert(env[p].at_most(st.bound_over(s, e)));
    } else if s > p {
        lemma_suffix_max(env, s, j);
        assert(st.env_suffix_max@[s] == suffix_max(env, s));
    } else {
        lemma_prefix_max(env, e - 1, j);
        assert(st.env_prefix_max@[e - 1] == prefix_max(env, e - 1));
    }
}

/// A running maximum does not exceed a bound on the whole.
proof fn lemma_prefix_le(env: Seq<Single>, i: int, v: Single)
    requires
        numbers(env),
        0 <= i < env.len(),
        forall|j: int| 0 <= j < env.len() ==> (#[trigger] env[j]).at_most(v),
    ensures
        prefix_max(env, i).at_most(v),
    decreases i,
{
    assert(env[i].at_most(v));
    if i > 0 {
        lemma_prefix_le(env, i - 1, v);
    }
}

// ---------------------------------------------------------------------------------------------
// stale frames
// ---------------------------------------------------------------------------------------------

/// Frame `n` reads some sample of `[tau, tau + atom_len)`.
pub open spec fn overlaps(hop: int, support: int, n: int, tau: int, atom_len: int) -> bool {
    n * hop < tau + atom_len && n * hop + support > tau
}

/// The samples an update of `atom_len` samples at `tau` touches. An empty one at the origin counts as
/// one sample.
pub open spec fn touched(tau: int, atom_len: int) -> int {
    if tau + atom_len <= 0 {
        1
    } else {
        atom_len
    }
}

/// The quotient rounded up.
pub open spec fn ceil_div(a: int, b: int) -> int {
    (a + b - 1) / b
}

proof fn lemma_ceil_div(a: int, b: int, n: int)
    requires
        a >= 0,
        b >= 1,
    ensures
        ceil_div(a, b) >= 0,
        n < ceil_div(a, b) <==> n * b < a,
{
    let q = ceil_div(a, b);
    assert((a + b - 1) == b * q + (a + b - 1) % b) by {
        vstd::arithmetic::div_mod::lemma_fundamental_div_mod(a + b - 1, b);
    }
    assert(0 <= (a + b - 1) % b < b);
    assert(q >= 0) by (nonlinear_arith)
        requires
            a >= 0,
            b >= 1,
            a + b - 1 == b * q + (a + b - 1) % b,
            (a + b - 1) % b < b,
    ;
    if n < q {
        assert(n * b < a) by (nonlinear_arith)
            requires
                n + 1 <= q,
                b >= 1,
                a + b - 1 == b * q + (a + b - 1) % b,
                0 <= (a + b - 1) % b < b,
        ;
    } else {
        assert(n * b >= a) by (nonlinear_arith)
            requires
                n >= q,
                b >= 1,
                a + b - 1 == b * q + (a + b - 1) % b,
                0 <= (a + b - 1) % b < b,
        ;
    }
}

/// The quotient rounded up, on machine integers.
fn div_up(a: usize, b: usize) -> (r: usize)
    requires
        b >= 1,
    ensures
        r == ceil_div(a as int, b as int),
{
    let q: usize = a / b;
    proof {
        vstd::arithmetic::div_mod::lemma_fundamental_div_mod(a as int, b as int);
        let m = a as int % b as int;
        assert(q as int * b == b * q as int) by (nonlinear_arith);
        if m == 0 {
            vstd::arithmetic::div_mod::lemma_fundamental_div_mod_converse(
                a + b - 1,
                b as int,
                q as int,
                b - 1,
            );
        } else {
            assert((q as int + 1) * b == b * q + b) by (nonlinear_arith);
            vstd::arithmetic::div_mod::lemma_fundamental_div_mod_converse(
                a + b - 1,
                b as int,
                q + 1,
                m - 1,
            );
            assert(q < usize::MAX) by (nonlinear_arith)
                requires
                    a == b * q + m,
                    m >= 1,
                    b >= 1,
                    a <= usize::MAX,
            ;
        }
    }
    if a % b == 0 {
        q
    } else {
        q + 1
    }
}

/// The first frame that can read sample `tau` or later.
pub open spec fn stale_first(hop: int, support: int, tau: int) -> int {
    ceil_div(
        if tau >= support - 1 {
            tau - (support - 1)
        } else {
            0
        },
        hop,
    )
}

/// The last frame that starts on or before the last touched sample.
pub open spec fn stale_last(hop: int, frames: int, tau: int, atom_len: int) -> int {
    let last = (tau + touched(tau, atom_len) - 1) / hop;
    if last <= frames - 1 {
        last
    } else {
        frames - 1
    }
}

/// The number of frames an update touches.
pub open spec fn stale_count(hop: int, support: int, frames: int, tau: int, atom_len: int) -> int {
    let lo = stale_first(hop, support, tau);
    let hi = stale_last(hop, frames, tau, atom_len);
    if lo <= hi {
        hi - lo + 1
    } else {
        0
    }
}

/// The frames an update touches are one run.
pub proof fn lemma_stale_run(hop: int, support: int, frames: int, tau: int, atom_len: int)
    requires
        hop >= 1,
        support >= 1,
        tau >= 0,
        atom_len >= 0,
    ensures
        stale_first(hop, support, tau) >= 0,
        forall|n: int|
            stale_first(hop, support, tau) <= n <= stale_last(hop, frames, tau, atom_len) <==> 0 <= n
                < frames && #[trigger] overlaps(hop, support, n, tau, touched(tau, atom_len)),
{
    let reach = if tau >= support - 1 {
        tau - (support - 1)
    } else {
        0
    };
    let x = tau + touched(tau, atom_len) - 1;
    let last = x / hop;
    lemma_ceil_div(reach, hop, 0);
    assert forall|n: int|
        stale_first(hop, support, tau) <= n <= stale_last(hop, frames, tau, atom_len) <==> 0 <= n
            < frames && #[trigger] overlaps(hop, support, n, tau, touched(tau, atom_len)) by {
        lemma_ceil_div(reach, hop, n);
        vstd::arithmetic::div_mod::lemma_fundamental_div_mod(x, hop);
        if n <= last {
            assert(n * hop <= x) by (nonlinear_arith)
                requires
                    n <= last,
                    last == x / hop,
                    x == hop * (x / hop) + x % hop,
                    0 <= x % hop,
                    hop >= 1,
            ;
        } else {
            assert(n * hop > x) by (nonlinear_arith)
                requires
                    n >= last + 1,
                    last == x / hop,
                    x == hop * (x / hop) + x % hop,
                    x % hop < hop,
                    hop >= 1,
            ;
        }
    }
}

/// Frames whose read window overlaps `[tau, tau + atom_len)`, first and last.
///
/// The single definition, used by the incremental update and by whoever wants to know its extent.
pub fn stale_range_of(
    hop: usize,
    support_len: usize,
    frames: usize,
    tau: usize,
    atom_len: usize,
) -> (r: Option<(usize, usize)>)
    requires
        hop >= 1,
        support_len >= 1,
        tau + atom_len <= usize::MAX,
    ensures
        r is Some == (stale_count(
            hop as int,
            support_len as int,
            frames as int,
            tau as int,
            atom_len as int,
        ) > 0),
        r matches Some((lo, hi)) ==> lo == stale_first(hop as int, support_len as int, tau as int)
            && hi == stale_last(hop as int, frames as int, tau as int, atom_len as int),
        r matches Some((lo, hi)) ==> lo <= hi < frames && forall|n: int|
            lo <= n <= hi <==> 0 <= n < frames && #[trigger] overlaps(
                hop as int,
                support_len as int,
                n,
                tau as int,
                touched(tau as int, atom_len as int),
            ),
        r is None ==> forall|n: int|
            0 <= n < frames ==> !#[trigger] overlaps(
                hop as int,
                support_len as int,
                n,
                tau as int,
                touched(tau as int, atom_len as int),
            ),
{
    if frames == 0 {
        proof {
            lemma_ceil_div(
                if tau >= support_len - 1 {
                    tau - (support_len - 1)
                } else {
                    0
                },
                hop as int,
                0,
            );
        }
        return None;
    }
    let reach: usize = if tau >= support_len - 1 {
        tau - (support_len - 1)
    } else {
        0
    };
    let n_lo: usize = div_up(reach, hop);
    let end: usize = tau + atom_len;
    let last_sample: usize = if end >= 1 {
        end - 1
    } else {
        0
    };
    let last: usize = last_sample / hop;
    let n_hi: usize = if last <= frames - 1 {
        last
    } else {
        frames - 1
    };
    proof {
        lemma_stale_run(
            hop as int,
            support_len as int,
            frames as int,
            tau as int,
            atom_len as int,
        );
    }
    if n_lo <= n_hi {
        Some((n_lo, n_hi))
    } else {
        proof {
            assert forall|n: int| 0 <= n < frames implies !#[trigger] overlaps(
                hop as int,
                support_len as int,
                n,
                tau as int,
                touched(tau as int, atom_len as int),
            ) by {
                assert(!(n_lo <= n <= n_hi));
            }
        }
        None
    }
}

// ---------------------------------------------------------------------------------------------
// the tables of a whole dictionary
// ---------------------------------------------------------------------------------------------

/// A pursuit's frame tables over one residual.
pub struct Mp<'a> {
    pub dict: &'a Dictionary,
    pub states: Vec<BlockState>,
    /// Samples in the residual.
    pub len: usize,
    /// The leading range of the residual this pursuit selects from.
    pub core_len: usize,
    /// Frames bounded rather than recomputed, and frames recomputed on demand, over the run.
    pub marked: usize,
    pub resolved: usize,
    /// The same, per block.
    pub per_block: Vec<(usize, usize)>,
}

/// What the candidate search has to say.
pub enum Candidates {
    /// The strongest seeds, every one of them exact.
    Ready(Vec<Seed>),
    /// Frames of each block that must be recomputed before the seeds can be trusted.
    Resolve(Vec<Vec<usize>>),
}

/// A count that stops at the largest machine integer.
pub open spec fn counted(n: int) -> int {
    if n <= usize::MAX {
        n
    } else {
        usize::MAX as int
    }
}

/// A stored bound reaches the line, or there is no line.
pub open spec fn reaches(line: Option<Double>, e: Double) -> bool {
    match line {
        Some(x) => x.at_most(e),
        None => true,
    }
}

/// The dirty frames among the first `n` whose bound reaches the line, in frame order.
pub open spec fn dirty_list(st: BlockState, line: Option<Double>, n: int) -> Seq<usize>
    decreases n,
{
    if n <= 0 {
        Seq::empty()
    } else if st.dirty@[n - 1] && reaches(line, st.energy@[n - 1]) {
        dirty_list(st, line, n - 1).push((n - 1) as usize)
    } else {
        dirty_list(st, line, n - 1)
    }
}

proof fn lemma_dirty_list(st: BlockState, line: Option<Double>, n: int)
    requires
        0 <= n <= usize::MAX,
    ensures
        forall|x: usize| #[trigger]
            dirty_list(st, line, n).contains(x) <==> x < n && st.dirty@[x as int] && reaches(
                line,
                st.energy@[x as int],
            ),
        ascending(dirty_list(st, line, n)),
        forall|i: int|
            0 <= i < dirty_list(st, line, n).len() ==> #[trigger] dirty_list(st, line, n)[i] < n,
    decreases n,
{
    let d = dirty_list(st, line, n);
    if n > 0 {
        lemma_dirty_list(st, line, n - 1);
        let rest = dirty_list(st, line, n - 1);
        assert forall|x: usize| #[trigger] d.contains(x) <==> x < n && st.dirty@[x as int] && reaches(
            line,
            st.energy@[x as int],
        ) by {
            assert(rest.contains(x) <==> x < n - 1 && st.dirty@[x as int] && reaches(
                line,
                st.energy@[x as int],
            ));
            if d.contains(x) {
                let i = choose|i: int| 0 <= i < d.len() && d[i] == x;
                if i < rest.len() {
                    assert(rest[i] == x);
                    assert(rest.contains(x));
                }
            }
            if x < n - 1 && rest.contains(x) {
                let i = choose|i: int| 0 <= i < rest.len() && rest[i] == x;
                assert(d[i] == x);
            }
            if x == n - 1 && st.dirty@[x as int] && reaches(line, st.energy@[x as int]) {
                assert(d[rest.len() as int] == x);
            }
        }
    }
}

pub open spec fn ascending(s: Seq<usize>) -> bool {
    forall|i: int, j: int| #![trigger s[i], s[j]] 0 <= i < j < s.len() ==> s[i] < s[j]
}

/// One block's dirty frames whose stored bound reaches the line, in frame order.
pub fn dirty_in(st: &BlockState, line: Option<Double>) -> (r: Vec<usize>)
    requires
        st.dirty@.len() == st.energy@.len(),
    ensures
        r@ == dirty_list(*st, line, st.energy@.len() as int),
{
    let mut out: Vec<usize> = Vec::new();
    let mut n: usize = 0;
    while n < st.energy.len()
        invariant
            n <= st.energy@.len(),
            st.dirty@.len() == st.energy@.len(),
            out@ == dirty_list(*st, line, n as int),
        decreases st.energy@.len() - n,
    {
        let hit = st.dirty[n] && match line {
            Some(x) => x.le(st.energy[n]),
            None => true,
        };
        if hit {
            out.push(n);
        }
        n += 1;
    }
    out
}

/// Each block's dirty frames, found across rayon's pool.
///
/// `ParallelIterator::map` over `par_iter`, gathered by `collect`: what [`dirty_in`] returns for each
/// state, in order.
#[verifier::external_body]
fn dirty_parallel(states: &[BlockState], line: Option<Double>) -> (r: Vec<Vec<usize>>)
    requires
        forall|b: int|
            0 <= b < states@.len() ==> (#[trigger] states@[b]).dirty@.len()
                == states@[b].energy@.len(),
    ensures
        r@.len() == states@.len(),
        forall|b: int|
            0 <= b < states@.len() ==> (#[trigger] r@[b])@ == dirty_list(
                states@[b],
                line,
                states@[b].energy@.len() as int,
            ),
{
    states.par_iter().map(|st| dirty_in(st, line)).collect()
}

impl<'a> Mp<'a> {
    pub open spec fn frames_of(&self, b: int) -> int {
        frames(self.dict.blocks@[b].hop as int, self.len as int)
    }

    pub open spec fn wf(&self) -> bool {
        &&& self.states@.len() == self.dict.blocks@.len()
        &&& self.per_block@.len() == self.dict.blocks@.len()
        &&& self.core_len <= self.len
        &&& forall|b: int|
            0 <= b < self.dict.blocks@.len() ==> {
                &&& (#[trigger] self.dict.blocks@[b]).wf()
                &&& self.dict.blocks@[b].support() >= 1
            }
        &&& forall|b: int|
            0 <= b < self.states@.len() ==> (#[trigger] self.states@[b]).wf(
                self.frames_of(b),
                self.dict.blocks@[b].env.samples@,
            )
    }

    /// The tables differ only in what the frames hold.
    pub open spec fn same_shape(&self, other: Mp) -> bool {
        &&& self.dict == other.dict
        &&& self.len == other.len
        &&& self.core_len == other.core_len
        &&& self.states@.len() == other.states@.len()
        &&& self.per_block@.len() == other.per_block@.len()
        &&& forall|b: int|
            0 <= b < self.states@.len() ==> (#[trigger] self.states@[b]).same_envelope(
                other.states@[b],
            )
    }

    /// Frame `n` of block `b` starts in the core.
    pub open spec fn in_core(&self, b: int, n: int) -> bool {
        self.core_len == self.len || n * self.dict.blocks@[b].hop < self.core_len
    }

    /// What the candidate search sees of block `b`: nothing where a frame is outside the core, dirty,
    /// or not finite.
    pub open spec fn frame_view(&self, b: int) -> FrameView {
        FrameView {
            block: b as usize,
            seen: Seq::new(
                self.states@[b].energy@.len(),
                |n: int|
                    if self.in_core(b, n) && !self.states@[b].dirty@[n]
                        && self.states@[b].energy@[n].finite() {
                        self.states@[b].energy@[n]
                    } else {
                        Double { bits: NEG_INFINITY }
                    },
            ),
            bin: self.states@[b].bin@,
            hop: self.dict.blocks@[b].hop,
            support_len: self.dict.blocks@[b].env.samples@.len() as usize,
        }
    }

    pub open spec fn table_views(&self) -> Seq<FrameView> {
        Seq::new(self.states@.len(), |b: int| self.frame_view(b))
    }

    /// Where the search draws the line: the weakest of `k` seeds, or below everything when there are
    /// fewer.
    pub open spec fn line(&self, k: int) -> Double {
        let seeds = selection(self.table_views(), k);
        if seeds.len() == k {
            seeds.last().energy
        } else {
            Double { bits: NEG_INFINITY }
        }
    }

    /// Block `b`'s frames that must be exact before `k` seeds can be trusted.
    pub open spec fn pending(&self, b: int, k: int) -> Seq<usize> {
        dirty_list(self.states@[b], Some(self.line(k)), self.states@[b].energy@.len() as int)
    }

    /// Tables over a residual of `len` samples, from one scan of every frame of every block.
    ///
    /// Only frames whose onset falls in `[0, core_len)` are selected from. The rest are still kept
    /// current: an atom near the core's end extends into them.
    pub fn with_core<R: Reals>(
        r: &R,
        dict: &'a Dictionary,
        len: usize,
        scans: &[Vec<(u32, Double)>],
        core_len: usize,
    ) -> (answer: Mp<'a>)
        requires
            scans@.len() == dict.blocks@.len(),
            r.repeatable(),
            forall|b: int|
                0 <= b < dict.blocks@.len() ==> {
                    &&& (#[trigger] dict.blocks@[b]).wf()
                    &&& dict.blocks@[b].support() >= 1
                    &&& scans@[b]@.len() == frames(dict.blocks@[b].hop as int, len as int)
                },
        ensures
            answer.wf(),
            answer.dict == dict,
            answer.len == len,
            answer.core_len == if core_len < len {
                core_len
            } else {
                len
            },
            answer.marked == 0,
            answer.resolved == 0,
            forall|b: int| 0 <= b < answer.per_block@.len() ==> #[trigger] answer.per_block@[b] == (0usize, 0usize),
            forall|b: int|
                0 <= b < scans@.len() ==> holds_scan(#[trigger] answer.states@[b], scans@[b]@),
            forall|b: int|
                0 <= b < scans@.len() ==> (#[trigger] answer.states@[b]).lambda_min
                    == dict.blocks@[b].least_eigenvalue_of(r),
    {
        let mut states: Vec<BlockState> = Vec::new();
        let mut per_block: Vec<(usize, usize)> = Vec::new();
        let mut b: usize = 0;
        while b < dict.blocks.len()
            invariant
                b <= dict.blocks@.len(),
                scans@.len() == dict.blocks@.len(),
                r.repeatable(),
                forall|b: int|
                    0 <= b < dict.blocks@.len() ==> {
                        &&& (#[trigger] dict.blocks@[b]).wf()
                        &&& dict.blocks@[b].support() >= 1
                        &&& scans@[b]@.len() == frames(dict.blocks@[b].hop as int, len as int)
                    },
                states@.len() == b,
                per_block@.len() == b,
                forall|i: int| 0 <= i < b ==> #[trigger] per_block@[i] == (0usize, 0usize),
                forall|i: int|
                    0 <= i < b ==> {
                        &&& (#[trigger] states@[i]).wf(
                            frames(dict.blocks@[i].hop as int, len as int),
                            dict.blocks@[i].env.samples@,
                        )
                        &&& holds_scan(states@[i], scans@[i]@)
                        &&& states@[i].lambda_min == dict.blocks@[i].least_eigenvalue_of(r)
                    },
            decreases dict.blocks@.len() - b,
        {
            assert(dict.blocks@[b as int].support() >= 1);
            let lambda_min = dict.blocks[b].least_eigenvalue(r);
            let st = BlockState::new(
                scans[b].as_slice(),
                dict.blocks[b].env.samples.as_slice(),
                lambda_min,
            );
            proof {
                assert(scans@[b as int]@.len() == frames(
                    dict.blocks@[b as int].hop as int,
                    len as int,
                ));
            }
            states.push(st);
            per_block.push((0, 0));
            b += 1;
        }
        let core_len: usize = if core_len < len {
            core_len
        } else {
            len
        };
        Mp { dict, states, len, core_len, marked: 0, resolved: 0, per_block }
    }

    /// Tables over a whole residual, all of it selected from.
    pub fn new<R: Reals>(
        r: &R,
        dict: &'a Dictionary,
        len: usize,
        scans: &[Vec<(u32, Double)>],
    ) -> (answer: Mp<'a>)
        requires
            scans@.len() == dict.blocks@.len(),
            r.repeatable(),
            forall|b: int|
                0 <= b < dict.blocks@.len() ==> {
                    &&& (#[trigger] dict.blocks@[b]).wf()
                    &&& dict.blocks@[b].support() >= 1
                    &&& scans@[b]@.len() == frames(dict.blocks@[b].hop as int, len as int)
                },
        ensures
            answer.wf(),
            answer.dict == dict,
            answer.len == len,
            answer.core_len == len,
            answer.marked == 0,
            answer.resolved == 0,
            forall|b: int| 0 <= b < answer.per_block@.len() ==> #[trigger] answer.per_block@[b] == (0usize, 0usize),
            forall|b: int|
                0 <= b < scans@.len() ==> holds_scan(#[trigger] answer.states@[b], scans@[b]@),
            forall|b: int|
                0 <= b < scans@.len() ==> (#[trigger] answer.states@[b]).lambda_min
                    == dict.blocks@[b].least_eigenvalue_of(r),
    {
        Mp::with_core(r, dict, len, scans, len)
    }

    /// Frames of block `b` whose onset falls in the core, or `None` when that is all of them.
    pub fn core_frames(&self, b: usize) -> (r: Option<usize>)
        requires
            self.wf(),
            b < self.dict.blocks@.len(),
        ensures
            r is None == (self.core_len == self.len),
            r matches Some(c) ==> forall|n: int| n < c <==> #[trigger] self.in_core(b as int, n),
    {
        if self.core_len == self.len {
            return None;
        }
        assert(self.dict.blocks@[b as int].wf());
        let c: usize = div_up(self.core_len, self.dict.blocks[b].hop);
        proof {
            assert forall|n: int| n < c <==> #[trigger] self.in_core(b as int, n) by {
                lemma_ceil_div(self.core_len as int, self.dict.blocks@[b as int].hop as int, n);
            }
        }
        Some(c)
    }

    /// The tables as the candidate search reads them.
    fn tables(&self) -> (r: Vec<FrameTable<'_>>)
        requires
            self.wf(),
        ensures
            views(r@) == self.table_views(),
            crate::cand::all_wf(r@),
            distinct_blocks(self.table_views()),
    {
        let mut out: Vec<FrameTable<'_>> = Vec::new();
        let mut b: usize = 0;
        while b < self.states.len()
            invariant
                self.wf(),
                b <= self.states@.len(),
                out@.len() == b,
                forall|i: int|
                    0 <= i < b ==> (#[trigger] out@[i]).wf() && out@[i]@ == self.frame_view(i),
            decreases self.states@.len() - b,
        {
            let block = &self.dict.blocks[b];
            let st = &self.states[b];
            proof {
                assert(self.states@[b as int].wf(
                    self.frames_of(b as int),
                    block.env.samples@,
                ));
                assert(block.wf());
                if self.len > 0 {
                    law_frames_cover_the_signal(block.hop as int, self.len as int);
                }
            }
            let t = FrameTable {
                block: b,
                energy: st.energy.as_slice(),
                bin: st.bin.as_slice(),
                dirty: Some(st.dirty.as_slice()),
                core_frames: self.core_frames(b),
                hop: block.hop,
                support_len: block.support_len(),
            };
            proof {
                let v = self.frame_view(b as int);
                assert(t@.seen =~= v.seen) by {
                    assert forall|n: int| 0 <= n < v.seen.len() implies #[trigger] t@.seen[n]
                        == v.seen[n] by {
                        if let Some(c) = t.core_frames {
                            assert(n < c <==> self.in_core(b as int, n));
                        }
                    }
                }
                assert(t@ == v);
            }
            out.push(t);
            b += 1;
        }
        proof {
            assert(views(out@) =~= self.table_views());
        }
        out
    }

    /// Each block's dirty frames whose stored bound reaches the line, in frame order.
    pub fn dirty_frames(&self, line: Option<Double>) -> (r: Vec<Vec<usize>>)
        requires
            self.wf(),
        ensures
            r@.len() == self.states@.len(),
            forall|b: int|
                0 <= b < self.states@.len() ==> (#[trigger] r@[b])@ == dirty_list(
                    self.states@[b],
                    line,
                    self.states@[b].energy@.len() as int,
                ),
    {
        let mut total: usize = 0;
        let mut b: usize = 0;
        while b < self.states.len()
            invariant
                b <= self.states@.len(),
            decreases self.states@.len() - b,
        {
            total = total.saturating_add(self.states[b].energy.len());
            b += 1;
        }
        assert forall|b: int| 0 <= b < self.states@.len() implies (#[trigger] self.states@[b]).dirty@.len()
            == self.states@[b].energy@.len() by {
            assert(self.states@[b].wf(self.frames_of(b), self.dict.blocks@[b].env.samples@));
        }
        if total >= PARALLEL_SCAN_FRAMES {
            return dirty_parallel(self.states.as_slice(), line);
        }
        let mut out: Vec<Vec<usize>> = Vec::new();
        let mut b: usize = 0;
        while b < self.states.len()
            invariant
                b <= self.states@.len(),
                forall|i: int|
                    0 <= i < self.states@.len() ==> (#[trigger] self.states@[i]).dirty@.len()
                        == self.states@[i].energy@.len(),
                out@.len() == b,
                forall|i: int|
                    0 <= i < b ==> (#[trigger] out@[i])@ == dirty_list(
                        self.states@[i],
                        line,
                        self.states@[i].energy@.len() as int,
                    ),
            decreases self.states@.len() - b,
        {
            let own = dirty_in(&self.states[b], line);
            out.push(own);
            b += 1;
        }
        out
    }

    /// The strongest seeds, best first, or the frames to recompute before they can be told.
    ///
    /// Seeds are read off the *clean* frames only. The line is then set by certain values, and every
    /// dirty frame whose bound reaches it is resolved as one batch. Fewer clean seeds than asked for
    /// means there is no line to reason about, and everything dirty is resolved.
    pub fn top_candidates(&self, k: usize) -> (r: Candidates)
        requires
            self.wf(),
            k >= 1,
        ensures
            match r {
                Candidates::Ready(seeds) => {
                    &&& seeds@ == selection(self.table_views(), k as int)
                    &&& forall|b: int|
                        0 <= b < self.states@.len() ==> (#[trigger] self.pending(b, k as int)).len()
                            == 0
                },
                Candidates::Resolve(frames) => {
                    &&& frames@.len() == self.states@.len()
                    &&& forall|b: int|
                        0 <= b < self.states@.len() ==> (#[trigger] frames@[b])@ == self.pending(
                            b,
                            k as int,
                        )
                    &&& exists|b: int| 0 <= b < frames@.len() && (#[trigger] frames@[b])@.len() > 0
                },
            },
    {
        let tables = self.tables();
        let seeds = top_seeds(tables.as_slice(), k);
        proof {
            lemma_views(tables@);
            law_blocks_separately_is_one_scan(self.table_views(), k as int);
        }
        let line = if seeds.len() == k {
            seeds[k - 1].energy
        } else {
            Double { bits: NEG_INFINITY }
        };
        let pending = self.dirty_frames(Some(line));
        let mut any = false;
        let mut b: usize = 0;
        while b < pending.len()
            invariant
                b <= pending@.len(),
                any == exists|i: int| 0 <= i < b && (#[trigger] pending@[i])@.len() > 0,
            decreases pending@.len() - b,
        {
            if pending[b].len() > 0 {
                any = true;
            }
            b += 1;
        }
        proof {
            assert(line == self.line(k as int));
            assert forall|b: int| 0 <= b < self.states@.len() implies (#[trigger] pending@[b])@
                == self.pending(b, k as int) by {}
        }
        if any {
            Candidates::Resolve(pending)
        } else {
            proof {
                assert forall|b: int| 0 <= b < self.states@.len() implies (#[trigger] self.pending(
                    b,
                    k as int,
                )).len() == 0 by {
                    assert(pending@[b]@.len() == 0);
                }
            }
            Candidates::Ready(seeds)
        }
    }

    /// Store the exact values of the listed frames of each block.
    pub fn resolve(&mut self, per_block: &[Vec<usize>], exact: &[Vec<(u32, Double)>])
        requires
            old(self).wf(),
            per_block@.len() == old(self).states@.len(),
            exact@.len() == old(self).states@.len(),
            forall|b: int|
                0 <= b < per_block@.len() ==> {
                    &&& exact@[b]@.len() == (#[trigger] per_block@[b])@.len()
                    &&& ascending(per_block@[b]@)
                    &&& forall|j: int|
                        0 <= j < per_block@[b]@.len() ==> #[trigger] per_block@[b]@[j]
                            < old(self).frames_of(b)
                },
        ensures
            final(self).wf(),
            final(self).same_shape(*old(self)),
            forall|b: int|
                0 <= b < per_block@.len() ==> rewritten(
                    old(self).states@[b],
                    #[trigger] final(self).states@[b],
                    per_block@[b]@,
                    exact@[b]@,
                ),
            final(self).marked == old(self).marked,
            final(self).resolved == counted(
                old(self).resolved + total_len(per_block@, per_block@.len() as int),
            ),
            forall|b: int|
                0 <= b < per_block@.len() ==> #[trigger] final(self).per_block@[b] == (
                    old(self).per_block@[b].0,
                    counted(old(self).per_block@[b].1 + per_block@[b]@.len()) as usize,
                ),
    {
        let ghost start = *self;
        let mut b: usize = 0;
        while b < per_block.len()
            invariant
                b <= per_block@.len(),
                start == *old(self),
                start.wf(),
                self.wf(),
                self.same_shape(start),
                per_block@.len() == start.states@.len(),
                exact@.len() == start.states@.len(),
                forall|b: int|
                    0 <= b < per_block@.len() ==> {
                        &&& exact@[b]@.len() == (#[trigger] per_block@[b])@.len()
                        &&& ascending(per_block@[b]@)
                        &&& forall|j: int|
                            0 <= j < per_block@[b]@.len() ==> #[trigger] per_block@[b]@[j]
                                < start.frames_of(b)
                    },
                forall|i: int|
                    0 <= i < b ==> rewritten(
                        start.states@[i],
                        #[trigger] self.states@[i],
                        per_block@[i]@,
                        exact@[i]@,
                    ),
                forall|i: int|
                    b <= i < start.states@.len() ==> #[trigger] self.states@[i] == start.states@[i],
                self.marked == start.marked,
                self.resolved == counted(start.resolved + total_len(per_block@, b as int)),
                forall|i: int|
                    0 <= i < b ==> #[trigger] self.per_block@[i] == (
                        start.per_block@[i].0,
                        counted(start.per_block@[i].1 + per_block@[i]@.len()) as usize,
                    ),
                forall|i: int|
                    b <= i < start.per_block@.len() ==> #[trigger] self.per_block@[i]
                        == start.per_block@[i],
            decreases per_block@.len() - b,
        {
            let list = &per_block[b];
            let values = &exact[b];
            assert(list@ == per_block@[b as int]@);
            self.resolved = self.resolved.saturating_add(list.len());
            let (m, r) = self.per_block[b];
            self.per_block.set(b, (m, r.saturating_add(list.len())));
            let ghost before = self.states@;
            assert(self.states@[b as int].wf(
                self.frames_of(b as int),
                self.dict.blocks@[b as int].env.samples@,
            ));
            let st = &mut self.states[b];
            rewrite(st, list.as_slice(), values.as_slice());
            proof {
                assert(self.states@ =~= before.update(b as int, self.states@[b as int]));
            }
            b += 1;
        }
    }

    /// Every dirty frame of each block, for making the tables exact.
    pub fn resolve_all(&self) -> (r: Vec<Vec<usize>>)
        requires
            self.wf(),
        ensures
            r@.len() == self.states@.len(),
            forall|b: int|
                0 <= b < self.states@.len() ==> (#[trigger] r@[b])@ == dirty_list(
                    self.states@[b],
                    None,
                    self.states@[b].energy@.len() as int,
                ),
    {
        self.dirty_frames(None)
    }

    /// Frames of block `b` the incremental update would mark stale.
    pub fn stale_range(&self, b: usize, tau: usize, atom_len: usize) -> (r: Option<(usize, usize)>)
        requires
            self.wf(),
            b < self.states@.len(),
            tau + atom_len <= usize::MAX,
        ensures
            r matches Some((lo, hi)) ==> lo <= hi < self.frames_of(b as int) && forall|n: int|
                lo <= n <= hi <==> 0 <= n < self.frames_of(b as int) && #[trigger] overlaps(
                    self.dict.blocks@[b as int].hop as int,
                    self.dict.blocks@[b as int].support(),
                    n,
                    tau as int,
                    touched(tau as int, atom_len as int),
                ),
            r is None ==> forall|n: int|
                0 <= n < self.frames_of(b as int) ==> !#[trigger] overlaps(
                    self.dict.blocks@[b as int].hop as int,
                    self.dict.blocks@[b as int].support(),
                    n,
                    tau as int,
                    touched(tau as int, atom_len as int),
                ),
    {
        assert(self.dict.blocks@[b as int].wf());
        assert(self.states@[b as int].wf(
            self.frames_of(b as int),
            self.dict.blocks@[b as int].env.samples@,
        ));
        let block = &self.dict.blocks[b];
        stale_range_of(
            block.hop,
            block.support_len(),
            self.states[b].energy.len(),
            tau,
            atom_len,
        )
    }

    /// Set every frame whose read window overlaps the subtracted atom to its bound.
    ///
    /// The atom's samples landed at `tau`. `bounds[b]` holds a bound for each frame of
    /// [`Mp::stale_range`], in frame order.
    pub fn mark_bounds(&mut self, tau: usize, atom_len: usize, bounds: &[Vec<Double>])
        requires
            old(self).wf(),
            tau + atom_len <= usize::MAX,
            bounds@.len() == old(self).states@.len(),
            forall|b: int|
                0 <= b < bounds@.len() ==> (#[trigger] bounds@[b])@.len() == old(self).stale_frames(
                    b,
                    tau as int,
                    atom_len as int,
                ),
        ensures
            final(self).wf(),
            final(self).same_shape(*old(self)),
            forall|b: int|
                0 <= b < bounds@.len() ==> old(self).bounded(
                    b,
                    #[trigger] final(self).states@[b],
                    tau as int,
                    atom_len as int,
                    bounds@[b]@,
                ),
            final(self).resolved == old(self).resolved,
            final(self).marked == counted(
                old(self).marked + if atom_len == 0 {
                    0
                } else {
                    total_bounds(bounds@, bounds@.len() as int)
                },
            ),
            forall|b: int|
                0 <= b < bounds@.len() ==> #[trigger] final(self).per_block@[b] == (
                    counted(
                        old(self).per_block@[b].0 + if atom_len == 0 {
                            0
                        } else {
                            bounds@[b]@.len() as int
                        },
                    ) as usize,
                    old(self).per_block@[b].1,
                ),
    {
        if atom_len == 0 {
            return;
        }
        let ghost start = *self;
        let mut b: usize = 0;
        while b < bounds.len()
            invariant
                b <= bounds@.len(),
                atom_len > 0,
                start == *old(self),
                start.wf(),
                self.wf(),
                self.same_shape(start),
                tau + atom_len <= usize::MAX,
                bounds@.len() == start.states@.len(),
                forall|b: int|
                    0 <= b < bounds@.len() ==> (#[trigger] bounds@[b])@.len() == start.stale_frames(
                        b,
                        tau as int,
                        atom_len as int,
                    ),
                forall|i: int|
                    0 <= i < b ==> start.bounded(
                        i,
                        #[trigger] self.states@[i],
                        tau as int,
                        atom_len as int,
                        bounds@[i]@,
                    ),
                forall|i: int|
                    b <= i < start.states@.len() ==> #[trigger] self.states@[i] == start.states@[i],
                self.resolved == start.resolved,
                self.marked == counted(start.marked + total_bounds(bounds@, b as int)),
                forall|i: int|
                    0 <= i < b ==> #[trigger] self.per_block@[i] == (
                        counted(start.per_block@[i].0 + bounds@[i]@.len()) as usize,
                        start.per_block@[i].1,
                    ),
                forall|i: int|
                    b <= i < start.per_block@.len() ==> #[trigger] self.per_block@[i]
                        == start.per_block@[i],
            decreases bounds@.len() - b,
        {
            let own = &bounds[b];
            assert(own@ == bounds@[b as int]@);
            let (m, r) = self.per_block[b];
            let range = self.stale_range(b, tau, atom_len);
            let ghost before = self.states@;
            assert(self.states@[b as int].wf(
                self.frames_of(b as int),
                self.dict.blocks@[b as int].env.samples@,
            ));
            assert(self.dict.blocks@[b as int].wf());
            if let Some((lo, hi)) = range {
                proof {
                    self.lemma_range(b as int, tau as int, atom_len as int, lo as int, hi as int);
                }
                let st = &mut self.states[b];
                bound_run(st, lo, own.as_slice());
            } else {
                proof {
                    self.lemma_no_range(b as int, tau as int, atom_len as int);
                }
            }
            proof {
                let block = start.dict.blocks@[b as int];
                let (old_st, new_st) = (start.states@[b as int], self.states@[b as int]);
                let first = stale_first(block.hop as int, block.support(), tau as int);
                assert(touched(tau as int, atom_len as int) == atom_len);
                assert forall|n: int| 0 <= n < old_st.energy@.len() implies if atom_len > 0
                    && overlaps(block.hop as int, block.support(), n, tau as int, atom_len as int) {
                    #[trigger] new_st.energy@[n] == own@[n - first] && new_st.dirty@[n]
                } else {
                    new_st.energy@[n] == old_st.energy@[n] && new_st.dirty@[n] == old_st.dirty@[n]
                } by {
                    assert(old_st.energy@.len() == start.frames_of(b as int));
                }
                assert(start.bounded(b as int, new_st, tau as int, atom_len as int, own@));
            }
            self.marked = self.marked.saturating_add(own.len());
            self.per_block.set(b, (m.saturating_add(own.len()), r));
            proof {
                assert(self.states@ =~= before.update(b as int, self.states@[b as int]));
            }
            b += 1;
        }
    }

    /// The number of frames of block `b` an update touches.
    pub open spec fn stale_frames(&self, b: int, tau: int, atom_len: int) -> int {
        stale_count(
            self.dict.blocks@[b].hop as int,
            self.dict.blocks@[b].support(),
            self.frames_of(b),
            tau,
            atom_len,
        )
    }

    /// Block `b`'s frames that read the atom hold their bounds and are dirty; the others are as they
    /// were.
    pub open spec fn bounded(
        &self,
        b: int,
        new_st: BlockState,
        tau: int,
        atom_len: int,
        bounds: Seq<Double>,
    ) -> bool {
        let old_st = self.states@[b];
        let block = self.dict.blocks@[b];
        let lo = stale_first(block.hop as int, block.support(), tau);
        &&& new_st.same_envelope(old_st)
        &&& new_st.bin@ == old_st.bin@
        &&& new_st.energy@.len() == old_st.energy@.len()
        &&& new_st.dirty@.len() == old_st.dirty@.len()
        &&& forall|n: int|
            0 <= n < old_st.energy@.len() ==> if atom_len > 0 && overlaps(
                block.hop as int,
                block.support(),
                n,
                tau,
                atom_len,
            ) {
                #[trigger] new_st.energy@[n] == bounds[n - lo] && new_st.dirty@[n]
            } else {
                new_st.energy@[n] == old_st.energy@[n] && new_st.dirty@[n] == old_st.dirty@[n]
            }
    }

    proof fn lemma_range(&self, b: int, tau: int, atom_len: int, lo: int, hi: int)
        requires
            self.wf(),
            0 <= b < self.states@.len(),
            0 <= tau,
            0 < atom_len,
            lo <= hi < self.frames_of(b),
            forall|n: int|
                lo <= n <= hi <==> 0 <= n < self.frames_of(b) && #[trigger] overlaps(
                    self.dict.blocks@[b].hop as int,
                    self.dict.blocks@[b].support(),
                    n,
                    tau,
                    touched(tau, atom_len),
                ),
        ensures
            0 <= lo,
            lo == stale_first(self.dict.blocks@[b].hop as int, self.dict.blocks@[b].support(), tau),
            hi - lo + 1 == self.stale_frames(b, tau, atom_len),
    {
        self.lemma_stale_frames(b, tau, atom_len);
        let hop = self.dict.blocks@[b].hop as int;
        let support = self.dict.blocks@[b].support();
        let f = stale_first(hop, support, tau);
        let l = stale_last(hop, self.frames_of(b), tau, atom_len);
        assert(overlaps(hop, support, lo, tau, touched(tau, atom_len)));
        assert(overlaps(hop, support, hi, tau, touched(tau, atom_len)));
        assert(f <= lo <= hi <= l);
        assert(overlaps(hop, support, f, tau, touched(tau, atom_len)));
        assert(overlaps(hop, support, l, tau, touched(tau, atom_len)));
    }

    proof fn lemma_no_range(&self, b: int, tau: int, atom_len: int)
        requires
            self.wf(),
            0 <= b < self.states@.len(),
            0 <= tau,
            0 < atom_len,
            forall|n: int|
                0 <= n < self.frames_of(b) ==> !#[trigger] overlaps(
                    self.dict.blocks@[b].hop as int,
                    self.dict.blocks@[b].support(),
                    n,
                    tau,
                    touched(tau, atom_len),
                ),
        ensures
            self.stale_frames(b, tau, atom_len) == 0,
    {
        self.lemma_stale_frames(b, tau, atom_len);
        let hop = self.dict.blocks@[b].hop as int;
        let support = self.dict.blocks@[b].support();
        let f = stale_first(hop, support, tau);
        if self.stale_frames(b, tau, atom_len) > 0 {
            assert(overlaps(hop, support, f, tau, touched(tau, atom_len)));
        }
    }

    /// The stale frames are those from the first to the last.
    proof fn lemma_stale_frames(&self, b: int, tau: int, atom_len: int)
        requires
            self.wf(),
            0 <= b < self.states@.len(),
            0 <= tau,
            0 < atom_len,
        ensures
            stale_first(self.dict.blocks@[b].hop as int, self.dict.blocks@[b].support(), tau) >= 0,
            forall|n: int|
                stale_first(self.dict.blocks@[b].hop as int, self.dict.blocks@[b].support(), tau) <= n
                    <= stale_last(
                    self.dict.blocks@[b].hop as int,
                    self.frames_of(b),
                    tau,
                    atom_len,
                ) <==> 0 <= n < self.frames_of(b) && #[trigger] overlaps(
                    self.dict.blocks@[b].hop as int,
                    self.dict.blocks@[b].support(),
                    n,
                    tau,
                    touched(tau, atom_len),
                ),
    {
        assert(self.dict.blocks@[b].wf());
        lemma_stale_run(
            self.dict.blocks@[b].hop as int,
            self.dict.blocks@[b].support(),
            self.frames_of(b),
            tau,
            atom_len,
        );
    }

    /// A rejected candidate's frame, set to a deliberate value. It is not a bound, and must not be
    /// resolved back.
    pub fn demote(&mut self, b: usize, frame: usize, energy: Double)
        requires
            old(self).wf(),
            b < old(self).states@.len(),
            frame < old(self).frames_of(b as int),
        ensures
            final(self).wf(),
            final(self).same_shape(*old(self)),
            final(self).states@[b as int].energy@ == old(self).states@[b as int].energy@.update(
                frame as int,
                energy,
            ),
            final(self).states@[b as int].dirty@ == old(self).states@[b as int].dirty@.update(
                frame as int,
                false,
            ),
            final(self).states@[b as int].bin@ == old(self).states@[b as int].bin@,
            forall|i: int|
                0 <= i < old(self).states@.len() && i != b ==> #[trigger] final(self).states@[i]
                    == old(self).states@[i],
            final(self).marked == old(self).marked,
            final(self).resolved == old(self).resolved,
            final(self).per_block == old(self).per_block,
    {
        let ghost before = self.states@;
        assert(self.states@[b as int].wf(
            self.frames_of(b as int),
            self.dict.blocks@[b as int].env.samples@,
        ));
        let bin: u32 = self.states[b].bin[frame];
        let st = &mut self.states[b];
        st.put(frame, energy, bin, false);
        proof {
            assert(self.states@ =~= before.update(b as int, self.states@[b as int]));
            assert(self.states@[b as int].bin@ =~= before[b as int].bin@);
        }
    }

    /// Replace every frame by its exact value: the reference the lazy update is held to.
    pub fn refresh_all(&mut self, exact: &[Vec<(u32, Double)>])
        requires
            old(self).wf(),
            exact@.len() == old(self).states@.len(),
            forall|b: int|
                0 <= b < exact@.len() ==> (#[trigger] exact@[b])@.len() == old(self).frames_of(b),
        ensures
            final(self).wf(),
            final(self).same_shape(*old(self)),
            forall|b: int|
                0 <= b < exact@.len() ==> holds_scan(#[trigger] final(self).states@[b], exact@[b]@),
            final(self).marked == old(self).marked,
            final(self).resolved == old(self).resolved,
            final(self).per_block == old(self).per_block,
    {
        let ghost start = *self;
        let mut b: usize = 0;
        while b < exact.len()
            invariant
                b <= exact@.len(),
                start == *old(self),
                start.wf(),
                self.wf(),
                self.same_shape(start),
                exact@.len() == start.states@.len(),
                forall|b: int|
                    0 <= b < exact@.len() ==> (#[trigger] exact@[b])@.len() == start.frames_of(b),
                forall|i: int|
                    0 <= i < b ==> holds_scan(#[trigger] self.states@[i], exact@[i]@),
                self.marked == start.marked,
                self.resolved == start.resolved,
                self.per_block == start.per_block,
            decreases exact@.len() - b,
        {
            let own = &exact[b];
            let ghost before = self.states@;
            assert(self.states@[b as int].wf(
                self.frames_of(b as int),
                self.dict.blocks@[b as int].env.samples@,
            ));
            assert(own@ == exact@[b as int]@);
            let st = &mut self.states[b];
            fill(st, own.as_slice());
            proof {
                assert(self.states@ =~= before.update(b as int, self.states@[b as int]));
            }
            b += 1;
        }
    }

    /// Block and frame of the globally best atom, bounds included. Ties go to the lowest block, then
    /// the lowest frame.
    pub fn global_argmax(&self) -> (r: Option<(usize, usize)>)
        requires
            self.wf(),
        ensures
            match r {
                Some((b, n)) => {
                    &&& self.selectable(b as int, n as int)
                    &&& forall|i: int, m: int| #[trigger]
                        self.selectable(i, m) ==> self.states@[i].energy@[m].at_most(
                            self.states@[b as int].energy@[n as int],
                        ) && (i < b || i == b && m < n ==> self.states@[i].energy@[m].less(
                            self.states@[b as int].energy@[n as int],
                        ))
                },
                None => forall|i: int, m: int| !#[trigger] self.selectable(i, m),
            },
    {
        let mut best: Option<(usize, usize, Double)> = None;
        let mut b: usize = 0;
        while b < self.states.len()
            invariant
                self.wf(),
                b <= self.states@.len(),
                match best {
                    Some((x, y, e)) => {
                        &&& x < b
                        &&& self.selectable(x as int, y as int)
                        &&& e == self.states@[x as int].energy@[y as int]
                        &&& forall|i: int, m: int| #[trigger]
                            self.selectable(i, m) && i < b ==> self.states@[i].energy@[m].at_most(e)
                                && (i < x || i == x && m < y ==> self.states@[i].energy@[m].less(e))
                    },
                    None => forall|i: int, m: int| #[trigger] self.selectable(i, m) ==> i >= b,
                },
            decreases self.states@.len() - b,
        {
            let core = self.core_frames(b);
            let st = &self.states[b];
            let mut n: usize = 0;
            while n < st.energy.len()
                invariant
                    self.wf(),
                    b < self.states@.len(),
                    *st == self.states@[b as int],
                    n <= st.energy@.len(),
                    core is None == (self.core_len == self.len),
                    core matches Some(c) ==> forall|n: int|
                        n < c <==> #[trigger] self.in_core(b as int, n),
                    match best {
                        Some((x, y, e)) => {
                            &&& self.selectable(x as int, y as int)
                            &&& x < b || x == b && y < n
                            &&& e == self.states@[x as int].energy@[y as int]
                            &&& forall|i: int, m: int| #[trigger]
                                self.selectable(i, m) && (i < b || i == b && m < n)
                                    ==> self.states@[i].energy@[m].at_most(e) && (i < x || i == x
                                    && m < y ==> self.states@[i].energy@[m].less(e))
                        },
                        None => forall|i: int, m: int| #[trigger]
                            self.selectable(i, m) ==> i > b || i == b && m >= n,
                    },
                decreases st.energy@.len() - n,
            {
                let e = st.energy[n];
                let inside = match core {
                    Some(c) => n < c,
                    None => true,
                };
                assert(inside == self.in_core(b as int, n as int));
                assert((inside && e.finite()) == self.selectable(b as int, n as int));
                if inside && e.is_finite() {
                    let better = match best {
                        Some((_, _, top)) => top.lt(e),
                        None => true,
                    };
                    if better {
                        best = Some((b, n, e));
                    }
                }
                n += 1;
            }
            b += 1;
        }
        match best {
            Some((b, n, _)) => Some((b, n)),
            None => None,
        }
    }

    /// Frame `n` of block `b` may be selected: in the core, with a finite value stored.
    pub open spec fn selectable(&self, b: int, n: int) -> bool {
        &&& 0 <= b < self.states@.len()
        &&& 0 <= n < self.states@[b].energy@.len()
        &&& self.in_core(b, n)
        &&& self.states@[b].energy@[n].finite()
    }

    /// Frames bounded rather than recomputed, and frames recomputed on demand, so far.
    pub fn lazy_stats(&self) -> (r: (usize, usize))
        ensures
            r == (self.marked, self.resolved),
    {
        (self.marked, self.resolved)
    }

    /// [`Mp::lazy_stats`] per block.
    pub fn lazy_stats_per_block(&self) -> (r: &[(usize, usize)])
        ensures
            r@ == self.per_block@,
    {
        self.per_block.as_slice()
    }

    /// Per-frame best energies for one block.
    pub fn frame_energy(&self, b: usize) -> (r: &[Double])
        requires
            b < self.states@.len(),
        ensures
            r@ == self.states@[b as int].energy@,
    {
        self.states[b].energy.as_slice()
    }

    /// Per-frame best bins for one block.
    pub fn frame_bin(&self, b: usize) -> (r: &[u32])
        requires
            b < self.states@.len(),
        ensures
            r@ == self.states@[b as int].bin@,
    {
        self.states[b].bin.as_slice()
    }
}

/// A table holds exactly what a scan of its frames found.
pub open spec fn holds_scan(st: BlockState, scan: Seq<(u32, Double)>) -> bool {
    &&& st.energy@.len() == scan.len()
    &&& forall|n: int| 0 <= n < scan.len() ==> #[trigger] st.energy@[n] == scan[n].1
    &&& forall|n: int| 0 <= n < scan.len() ==> #[trigger] st.bin@[n] == scan[n].0
    &&& forall|n: int| 0 <= n < scan.len() ==> !#[trigger] st.dirty@[n]
}

/// The listed frames hold their exact values, and the others what they held.
pub open spec fn rewritten(
    old_st: BlockState,
    new_st: BlockState,
    list: Seq<usize>,
    exact: Seq<(u32, Double)>,
) -> bool {
    &&& new_st.same_envelope(old_st)
    &&& new_st.energy@.len() == old_st.energy@.len()
    &&& new_st.bin@.len() == old_st.bin@.len()
    &&& new_st.dirty@.len() == old_st.dirty@.len()
    &&& forall|j: int|
        0 <= j < list.len() ==> {
            let n = #[trigger] list[j] as int;
            new_st.energy@[n] == exact[j].1 && new_st.bin@[n] == exact[j].0 && !new_st.dirty@[n]
        }
    &&& forall|n: usize|
        n < old_st.energy@.len() && !#[trigger] list.contains(n) ==> new_st.energy@[n as int]
            == old_st.energy@[n as int] && new_st.bin@[n as int] == old_st.bin@[n as int]
            && new_st.dirty@[n as int] == old_st.dirty@[n as int]
}

/// The frames listed over the first `n` blocks.
pub open spec fn total_len(lists: Seq<Vec<usize>>, n: int) -> int
    decreases n,
{
    if n <= 0 {
        0
    } else {
        total_len(lists, n - 1) + lists[n - 1]@.len()
    }
}

/// Write the exact values of one block's listed frames.
fn rewrite(st: &mut BlockState, list: &[usize], exact: &[(u32, Double)])
    requires
        exact@.len() == list@.len(),
        ascending(list@),
        old(st).bin@.len() == old(st).energy@.len(),
        old(st).dirty@.len() == old(st).energy@.len(),
        forall|j: int| 0 <= j < list@.len() ==> #[trigger] list@[j] < old(st).energy@.len(),
    ensures
        rewritten(*old(st), *final(st), list@, exact@),
{
    let ghost start = *st;
    let mut j: usize = 0;
    while j < list.len()
        invariant
            j <= list@.len(),
            start == *old(st),
            exact@.len() == list@.len(),
            ascending(list@),
            st.same_envelope(start),
            st.energy@.len() == start.energy@.len(),
            st.bin@.len() == start.energy@.len(),
            st.dirty@.len() == start.energy@.len(),
            forall|j: int| 0 <= j < list@.len() ==> #[trigger] list@[j] < start.energy@.len(),
            forall|i: int|
                0 <= i < j ==> {
                    let n = #[trigger] list@[i] as int;
                    st.energy@[n] == exact@[i].1 && st.bin@[n] == exact@[i].0 && !st.dirty@[n]
                },
            forall|n: usize|
                n < start.energy@.len() && !#[trigger] list@.contains(n) ==> st.energy@[n as int]
                    == start.energy@[n as int] && st.bin@[n as int] == start.bin@[n as int]
                    && st.dirty@[n as int] == start.dirty@[n as int],
        decreases list@.len() - j,
    {
        let (bin, energy) = exact[j];
        let n: usize = list[j];
        assert(list@.contains(n)) by {
            assert(list@[j as int] == n);
        }
        st.put(n, energy, bin, false);
        proof {
            assert forall|i: int| 0 <= i < j + 1 implies {
                let n = #[trigger] list@[i] as int;
                st.energy@[n] == exact@[i].1 && st.bin@[n] == exact@[i].0 && !st.dirty@[n]
            } by {
                if i < j {
                    assert(list@[i] < list@[j as int]);
                }
            }
        }
        j += 1;
    }
}

/// The bounds given over the first `n` blocks.
pub open spec fn total_bounds(bounds: Seq<Vec<Double>>, n: int) -> int
    decreases n,
{
    if n <= 0 {
        0
    } else {
        total_bounds(bounds, n - 1) + bounds[n - 1]@.len()
    }
}

/// Write a run of bounds, marking each frame dirty.
fn bound_run(st: &mut BlockState, lo: usize, bounds: &[Double])
    requires
        lo + bounds@.len() <= old(st).energy@.len(),
        old(st).bin@.len() == old(st).energy@.len(),
        old(st).dirty@.len() == old(st).energy@.len(),
    ensures
        final(st).same_envelope(*old(st)),
        final(st).bin@ == old(st).bin@,
        final(st).energy@.len() == old(st).energy@.len(),
        final(st).dirty@.len() == old(st).dirty@.len(),
        forall|n: int|
            0 <= n < old(st).energy@.len() ==> if lo <= n < lo + bounds@.len() {
                #[trigger] final(st).energy@[n] == bounds@[n - lo] && final(st).dirty@[n]
            } else {
                final(st).energy@[n] == old(st).energy@[n] && final(st).dirty@[n] == old(
                    st,
                ).dirty@[n]
            },
{
    let ghost start = *st;
    let len: usize = st.energy.len();
    let mut j: usize = 0;
    while j < bounds.len()
        invariant
            j <= bounds@.len(),
            start == *old(st),
            len == start.energy@.len(),
            lo + bounds@.len() <= len,
            st.same_envelope(start),
            start.bin@.len() == start.energy@.len(),
            start.dirty@.len() == start.energy@.len(),
            st.bin@ == start.bin@,
            st.energy@.len() == start.energy@.len(),
            st.dirty@.len() == start.energy@.len(),
            forall|n: int|
                0 <= n < start.energy@.len() ==> #[trigger] st.energy@[n] == if lo <= n < lo + j {
                    bounds@[n - lo]
                } else {
                    start.energy@[n]
                },
            forall|n: int|
                0 <= n < start.energy@.len() ==> #[trigger] st.dirty@[n] == if lo <= n < lo + j {
                    true
                } else {
                    start.dirty@[n]
                },
        decreases bounds@.len() - j,
    {
        let n: usize = lo + j;
        let bin: u32 = st.bin[n];
        st.put(n, bounds[j], bin, true);
        proof {
            assert(st.bin@ =~= start.bin@);
        }
        j += 1;
    }
}

/// Write every frame of one block.
fn fill(st: &mut BlockState, exact: &[(u32, Double)])
    requires
        exact@.len() == old(st).energy@.len(),
        old(st).bin@.len() == old(st).energy@.len(),
        old(st).dirty@.len() == old(st).energy@.len(),
    ensures
        final(st).same_envelope(*old(st)),
        final(st).bin@.len() == old(st).bin@.len(),
        final(st).dirty@.len() == old(st).dirty@.len(),
        holds_scan(*final(st), exact@),
{
    let ghost start = *st;
    let mut n: usize = 0;
    while n < exact.len()
        invariant
            n <= exact@.len(),
            start == *old(st),
            exact@.len() == start.energy@.len(),
            st.same_envelope(start),
            st.energy@.len() == exact@.len(),
            st.bin@.len() == exact@.len(),
            st.dirty@.len() == exact@.len(),
            forall|i: int| 0 <= i < n ==> #[trigger] st.energy@[i] == exact@[i].1,
            forall|i: int| 0 <= i < n ==> #[trigger] st.bin@[i] == exact@[i].0,
            forall|i: int| 0 <= i < n ==> !#[trigger] st.dirty@[i],
        decreases exact@.len() - n,
    {
        let (bin, energy) = exact[n];
        st.put(n, energy, bin, false);
        n += 1;
    }
}

/// A clean frame holds its exact energy and bin; a dirty frame's bound is not below its energy.
pub open spec fn frame_sound(st: BlockState, exact: Seq<(u32, Double)>, n: int) -> bool {
    if st.dirty@[n] {
        &&& !st.energy@[n].nan()
        &&& exact[n].1.finite() ==> exact[n].1.at_most(st.energy@[n])
    } else {
        &&& st.energy@[n] == exact[n].1
        &&& st.bin@[n] == exact[n].0
    }
}

pub open spec fn block_sound(st: BlockState, exact: Seq<(u32, Double)>) -> bool {
    &&& exact.len() == st.energy@.len()
    &&& forall|n: int| 0 <= n < exact.len() ==> #[trigger] frame_sound(st, exact, n)
}

/// The tables are sound for the exact energies and bins: every frame holds its own or a bound on it.
pub open spec fn sound(mp: Mp, exact: Seq<Seq<(u32, Double)>>) -> bool {
    &&& exact.len() == mp.states@.len()
    &&& forall|b: int| 0 <= b < exact.len() ==> block_sound(#[trigger] mp.states@[b], exact[b])
}

/// What the search would see with every frame exact.
pub open spec fn eager_view(mp: Mp, exact: Seq<Seq<(u32, Double)>>, b: int) -> FrameView {
    FrameView {
        block: b as usize,
        seen: Seq::new(
            exact[b].len(),
            |n: int|
                if mp.in_core(b, n) && exact[b][n].1.finite() {
                    exact[b][n].1
                } else {
                    Double { bits: NEG_INFINITY }
                },
        ),
        bin: Seq::new(exact[b].len(), |n: int| exact[b][n].0),
        hop: mp.dict.blocks@[b].hop,
        support_len: mp.dict.blocks@[b].env.samples@.len() as usize,
    }
}

pub open spec fn eager_views(mp: Mp, exact: Seq<Seq<(u32, Double)>>) -> Seq<FrameView> {
    Seq::new(exact.len(), |b: int| eager_view(mp, exact, b))
}

/// The seeds [`Mp::top_candidates`] returns are those the exact tables would give, frame for frame:
/// the lazy update changes how much is computed, never what is found.
pub proof fn law_lazy_seeds_are_the_eager_ones(mp: Mp, exact: Seq<Seq<(u32, Double)>>, k: int)
    requires
        mp.wf(),
        sound(mp, exact),
        k >= 1,
        forall|b: int| 0 <= b < mp.states@.len() ==> (#[trigger] mp.pending(b, k)).len() == 0,
    ensures
        selection(mp.table_views(), k) == selection(eager_views(mp, exact), k),
{
    let masked = mp.table_views();
    let eager = eager_views(mp, exact);
    let r = selection(masked, k);
    let dirty = Seq::new(mp.states@.len(), |b: int| mp.states@[b].dirty@);
    let bound = Seq::new(mp.states@.len(), |b: int| mp.states@[b].energy@);
    assert forall|b: int| 0 <= b < mp.states@.len() implies #[trigger] mp.states@[b].energy@.len()
        <= usize::MAX && mp.states@[b].dirty@.len() == mp.states@[b].energy@.len() by {
        assert(mp.states@[b].wf(mp.frames_of(b), mp.dict.blocks@[b].env.samples@));
        assert(mp.states@[b].energy.len() == mp.states@[b].energy@.len());
    }
    assert(mp.states.len() == mp.states@.len());
    assert(indexable(masked));
    assert(distinct_blocks(masked));
    assert(distinct_blocks(eager));
    assert(indexable(eager)) by {
        assert forall|i: int| 0 <= i < eager.len() implies (#[trigger] eager[i]).seen.len()
            <= usize::MAX by {
            assert(block_sound(mp.states@[i], exact[i]));
        }
    }
    law_selection(masked, k);
    law_selection(eager, k);
    assert(crate::cand::bounded_by(masked, eager, dirty, bound)) by {
        assert forall|i: int| 0 <= i < masked.len() implies {
            &&& (#[trigger] eager[i]).block == masked[i].block
            &&& eager[i].hop == masked[i].hop
            &&& eager[i].support_len == masked[i].support_len
            &&& eager[i].seen.len() == masked[i].seen.len()
        } by {
            assert(block_sound(mp.states@[i], exact[i]));
        }
        assert forall|i: int, n: int|
            0 <= i < masked.len() && 0 <= n < masked[i].seen.len() implies if dirty[i][n] {
            &&& crate::cand::masked_out(masked[i].seen[n])
            &&& (#[trigger] eager[i].seen[n]).at_most(bound[i][n])
        } else {
            &&& eager[i].seen[n] == masked[i].seen[n]
            &&& eager[i].bin[n] == masked[i].bin[n]
        } by {
            assert(block_sound(mp.states@[i], exact[i]));
            assert(frame_sound(mp.states@[i], exact[i], n));
        }
    }
    assert(settled(masked, dirty, bound, k, r)) by {
        assert forall|i: int, n: int|
            0 <= i < masked.len() && 0 <= n < masked[i].seen.len()
                && #[trigger] dirty[i][n] implies r.len() == k && !r.last().energy.at_most(
            bound[i][n],
        ) by {
            assert(mp.pending(i, k).len() == 0);
            let len = mp.states@[i].energy@.len() as int;
            lemma_dirty_list(mp.states@[i], Some(mp.line(k)), len);
            assert(!mp.pending(i, k).contains(n as usize));
            assert(block_sound(mp.states@[i], exact[i]));
            assert(frame_sound(mp.states@[i], exact[i], n));
            assert(!mp.line(k).at_most(mp.states@[i].energy@[n]));
        }
    }
    law_masking_is_exact(masked, eager, dirty, bound, k, r);
    crate::cand::law_selection_is_unique(eager, k, r, selection(eager, k));
}

/// A table whose frames were all just computed is sound.
pub proof fn law_exact_tables_are_sound(mp: Mp, exact: Seq<Seq<(u32, Double)>>)
    requires
        exact.len() == mp.states@.len(),
        forall|b: int| 0 <= b < exact.len() ==> holds_scan(#[trigger] mp.states@[b], exact[b]),
    ensures
        sound(mp, exact),
{
    assert forall|b: int| 0 <= b < exact.len() implies block_sound(
        #[trigger] mp.states@[b],
        exact[b],
    ) by {
        let st = mp.states@[b];
        assert(holds_scan(st, exact[b]));
        assert forall|n: int| 0 <= n < exact[b].len() implies #[trigger] frame_sound(
            st,
            exact[b],
            n,
        ) by {
            assert(!st.dirty@[n] && st.energy@[n] == exact[b][n].1 && st.bin@[n] == exact[b][n].0);
        }
    }
}

/// The exact frames of one block before and after an atom is subtracted: those that do not read it
/// are unchanged, and those that do are within their bounds.
pub open spec fn bounds_hold(
    block: Block,
    tau: int,
    atom_len: int,
    bounds: Seq<Double>,
    exact: Seq<(u32, Double)>,
    changed: Seq<(u32, Double)>,
) -> bool {
    &&& changed.len() == exact.len()
    &&& forall|n: int|
        0 <= n < exact.len() ==> {
            let lo = stale_first(block.hop as int, block.support(), tau);
            if overlaps(block.hop as int, block.support(), n, tau, atom_len) {
                &&& !bounds[n - lo].nan()
                &&& changed[n].1.finite() ==> changed[n].1.at_most(bounds[n - lo])
            } else {
                #[trigger] changed[n] == exact[n]
            }
        }
}

/// Subtracting an atom leaves the tables sound: frames that do not read it keep their energies, and
/// those that do hold a bound on their new ones.
pub proof fn law_marking_keeps_tables_sound(
    before: Mp,
    after: Mp,
    tau: int,
    atom_len: int,
    bounds: Seq<Seq<Double>>,
    exact: Seq<Seq<(u32, Double)>>,
    changed: Seq<Seq<(u32, Double)>>,
)
    requires
        before.wf(),
        sound(before, exact),
        tau >= 0,
        atom_len > 0,
        after.states@.len() == before.states@.len(),
        bounds.len() == before.states@.len(),
        changed.len() == exact.len(),
        forall|b: int|
            0 <= b < bounds.len() ==> {
                &&& before.bounded(b, #[trigger] after.states@[b], tau, atom_len, bounds[b])
                &&& bounds_hold(
                    before.dict.blocks@[b],
                    tau,
                    atom_len,
                    bounds[b],
                    exact[b],
                    changed[b],
                )
            },
    ensures
        sound(after, changed),
{
    assert forall|b: int| 0 <= b < changed.len() implies block_sound(
        #[trigger] after.states@[b],
        changed[b],
    ) by {
        let st = after.states@[b];
        assert(before.bounded(b, st, tau, atom_len, bounds[b]));
        assert(block_sound(before.states@[b], exact[b]));
        assert forall|n: int| 0 <= n < changed[b].len() implies #[trigger] frame_sound(
            st,
            changed[b],
            n,
        ) by {
            assert(frame_sound(before.states@[b], exact[b], n));
            assert(st.energy@[n] == st.energy@[n]);
            assert(changed[b][n] == changed[b][n]);
        }
    }
}

/// The exact values of one block's listed frames.
pub open spec fn picked(list: Seq<usize>, exact: Seq<(u32, Double)>) -> Seq<(u32, Double)> {
    Seq::new(list.len(), |j: int| exact[list[j] as int])
}

/// Resolving listed frames to their exact values leaves the tables sound, and the listed frames
/// clean.
pub proof fn law_resolving_keeps_tables_sound(
    before: Mp,
    after: Mp,
    lists: Seq<Seq<usize>>,
    exact: Seq<Seq<(u32, Double)>>,
)
    requires
        before.wf(),
        sound(before, exact),
        after.states@.len() == before.states@.len(),
        lists.len() == before.states@.len(),
        forall|b: int|
            0 <= b < lists.len() ==> rewritten(
                before.states@[b],
                #[trigger] after.states@[b],
                lists[b],
                picked(lists[b], exact[b]),
            ),
    ensures
        sound(after, exact),
        forall|b: int, j: int|
            0 <= b < lists.len() && 0 <= j < lists[b].len()
                ==> !after.states@[b].dirty@[#[trigger] lists[b][j] as int],
{
    assert forall|b: int| 0 <= b < exact.len() implies block_sound(
        #[trigger] after.states@[b],
        exact[b],
    ) by {
        let st = after.states@[b];
        let list = lists[b];
        assert(rewritten(before.states@[b], st, list, picked(list, exact[b])));
        assert(block_sound(before.states@[b], exact[b]));
        assert(before.states@[b].energy.len() == before.states@[b].energy@.len());
        assert forall|n: int| 0 <= n < exact[b].len() implies #[trigger] frame_sound(
            st,
            exact[b],
            n,
        ) by {
            assert(frame_sound(before.states@[b], exact[b], n));
            if list.contains(n as usize) {
                let j = choose|j: int| 0 <= j < list.len() && list[j] == n as usize;
                assert(picked(list, exact[b])[j] == exact[b][n]);
                assert(list[j] as int == n);
            }
        }
    }
    assert forall|b: int, j: int| 0 <= b < lists.len() && 0 <= j < lists[b].len() implies !after.states@[b].dirty@[#[trigger] lists[b][j] as int] by {
        assert(rewritten(
            before.states@[b],
            after.states@[b],
            lists[b],
            picked(lists[b], exact[b]),
        ));
    }
}

// ---------------------------------------------------------------------------------------------
// what a bound is computed from
// ---------------------------------------------------------------------------------------------

/// A stretch of the atom under a frame's window, and a bound on the frame's envelope over it.
#[derive(Clone, Copy, Debug, PartialEq, Eq, Structural)]
pub struct Chunk {
    /// First and one past the last atom sample.
    pub from: usize,
    pub to: usize,
    /// At least the envelope anywhere under the stretch.
    pub env_max: Single,
}

/// The samples a frame and an atom share, first and one past the last.
pub open spec fn shared(onset: int, support: int, tau: int, atom_len: int) -> (int, int) {
    (
        if onset > tau {
            onset
        } else {
            tau
        },
        if onset + support < tau + atom_len {
            onset + support
        } else {
            tau + atom_len
        },
    )
}

/// The overlap of a frame's window and an atom, cut into at most eight stretches of even width.
pub open spec fn chunks_of(st: BlockState, onset: int, support: int, tau: int, atom_len: int) -> Seq<Chunk> {
    let (lo, hi) = shared(onset, support, tau, atom_len);
    let width = hi - lo;
    let count = if width < 8 {
        width
    } else {
        8
    };
    if width <= 0 {
        Seq::empty()
    } else {
        Seq::new(
            count as nat,
            |c: int|
                {
                    let from = lo + width * c / count;
                    let to = lo + width * (c + 1) / count;
                    Chunk {
                        from: (from - tau) as usize,
                        to: (to - tau) as usize,
                        env_max: st.bound_over(from - onset, to - onset),
                    }
                },
        )
    }
}

/// The chunks lie end to end from `from` to `to`, none empty, each with the bound on the envelope
/// under it.
pub open spec fn tiles(
    chunks: Seq<Chunk>,
    from: int,
    to: int,
    st: BlockState,
    onset: int,
    tau: int,
) -> bool {
    &&& chunks.len() > 0 ==> chunks[0].from == from && chunks.last().to == to
    &&& chunks.len() == 0 ==> from == to
    &&& forall|c: int| 0 < c < chunks.len() ==> chunks[c - 1].to == (#[trigger] chunks[c]).from
    &&& forall|c: int|
        0 <= c < chunks.len() ==> {
            &&& (#[trigger] chunks[c]).from < chunks[c].to
            &&& chunks[c].env_max == st.bound_over(
                chunks[c].from + tau - onset,
                chunks[c].to + tau - onset,
            )
        }
}

impl<'a> Mp<'a> {
    /// What the bound on frame `n` of block `b` is summed from: the overlap of its window and the
    /// atom, cut into at most eight stretches so the envelope's range maximum tracks its decay, with
    /// that maximum over each. Empty where the two do not overlap.
    pub fn bound_chunks(&self, b: usize, n: usize, tau: usize, atom_len: usize) -> (r: Vec<Chunk>)
        requires
            self.wf(),
            b < self.states@.len(),
            n < self.frames_of(b as int),
            tau + atom_len <= usize::MAX,
        ensures
            r@ == chunks_of(
                self.states@[b as int],
                n * self.dict.blocks@[b as int].hop,
                self.dict.blocks@[b as int].support(),
                tau as int,
                atom_len as int,
            ),
    {
        let block = &self.dict.blocks[b];
        let st = &self.states[b];
        proof {
            assert(self.dict.blocks@[b as int].wf());
            assert(self.states@[b as int].wf(
                self.frames_of(b as int),
                self.dict.blocks@[b as int].env.samples@,
            ));
            law_frames_cover_the_signal(block.hop as int, self.len as int);
            assert(n * block.hop <= (self.frames_of(b as int) - 1) * block.hop) by (nonlinear_arith)
                requires
                    n <= self.frames_of(b as int) - 1,
            ;
        }
        let support: usize = block.support_len();
        let onset: usize = block.frame_onset(n);
        let atom_end: usize = tau + atom_len;
        let lo: usize = if onset > tau {
            onset
        } else {
            tau
        };
        let hi: usize = if onset >= atom_end || support >= atom_end - onset {
            atom_end
        } else {
            onset + support
        };
        let mut out: Vec<Chunk> = Vec::new();
        if lo >= hi {
            return out;
        }
        let width: usize = hi - lo;
        let count: usize = if width < 8 {
            width
        } else {
            8
        };
        let mut c: usize = 0;
        let mut from: usize = lo;
        proof {
            assert(width as int * 0 / count as int == 0) by (nonlinear_arith)
                requires
                    count >= 1,
            ;
        }
        while c < count
            invariant
                c <= count,
                1 <= count <= 8,
                count <= width,
                width == hi - lo,
                tau <= lo,
                onset <= lo < hi,
                hi <= onset + support,
                *st == self.states@[b as int],
                st.env_prefix_max@.len() == support,
                st.env_suffix_max@.len() == support,
                from == lo + width as int * c as int / count as int,
                lo <= from <= hi,
                out@.len() == c,
                count == if width < 8 {
                    width as int
                } else {
                    8
                },
                (lo as int, hi as int) == shared(
                    onset as int,
                    support as int,
                    tau as int,
                    atom_len as int,
                ),
                forall|i: int|
                    0 <= i < c ==> #[trigger] out@[i] == chunks_of(
                        *st,
                        onset as int,
                        support as int,
                        tau as int,
                        atom_len as int,
                    )[i],
            decreases count - c,
        {
            proof {
                lemma_cut(width as int, c as int, count as int);
            }
            let step: u128 = width as u128 * (c as u128 + 1) / count as u128;
            let to: usize = lo + step as usize;
            let env_max = st.env_max(from - onset, to - onset);
            out.push(Chunk { from: from - tau, to: to - tau, env_max });
            from = to;
            c += 1;
        }
        proof {
            assert(width as int * count as int / count as int == width) by (nonlinear_arith)
                requires
                    count >= 1,
            ;
        }
        out
    }
}

/// The stretches a bound is summed over lie end to end across the overlap, none empty.
pub proof fn law_chunks_tile_the_overlap(st: BlockState, onset: int, support: int, tau: int, atom_len: int)
    requires
        0 <= tau,
        0 <= onset,
        0 <= support,
        0 <= atom_len,
        tau + atom_len <= usize::MAX,
        shared(onset, support, tau, atom_len).0 < shared(onset, support, tau, atom_len).1,
    ensures
        ({
            let (lo, hi) = shared(onset, support, tau, atom_len);
            let chunks = chunks_of(st, onset, support, tau, atom_len);
            &&& 1 <= chunks.len() <= 8
            &&& tiles(chunks, lo - tau, hi - tau, st, onset, tau)
        }),
{
    let (lo, hi) = shared(onset, support, tau, atom_len);
    let chunks = chunks_of(st, onset, support, tau, atom_len);
    let width = hi - lo;
    let count = if width < 8 {
        width
    } else {
        8
    };
    assert(width * 0 / count == 0) by (nonlinear_arith)
        requires
            count >= 1,
    ;
    assert(width * count / count == width) by (nonlinear_arith)
        requires
            count >= 1,
    ;
    assert forall|c: int| 0 <= c < chunks.len() implies {
        &&& (#[trigger] chunks[c]).from == lo + width * c / count - tau
        &&& chunks[c].to == lo + width * (c + 1) / count - tau
        &&& chunks[c].from < chunks[c].to
    } by {
        lemma_cut(width, c, count);
    }
    assert forall|c: int| 0 < c < chunks.len() implies chunks[c - 1].to == (#[trigger] chunks[c]).from by {
        assert(chunks[c - 1].to == lo + width * c / count - tau);
    }
    assert(chunks[0].from == lo - tau);
    assert(chunks[count - 1].to == hi - tau);
}

/// Cutting `width` into `count` parts leaves none empty and ends at `width`.
proof fn lemma_cut(width: int, c: int, count: int)
    requires
        1 <= count <= width,
        0 <= c < count,
        count <= 8,
    ensures
        width * c / count < width * (c + 1) / count <= width,
        0 <= width * c / count,
        width * (c + 1) <= width * 8,
{
    assert(width * (c + 1) == width * c + width) by (nonlinear_arith);
    vstd::arithmetic::div_mod::lemma_div_is_ordered(width * c + count, width * (c + 1), count);
    assert((width * c + count) / count == width * c / count + 1) by (nonlinear_arith)
        requires
            count >= 1,
    ;
    assert(width * (c + 1) <= width * count) by (nonlinear_arith)
        requires
            c + 1 <= count,
            width >= 1,
    ;
    vstd::arithmetic::div_mod::lemma_div_is_ordered(width * (c + 1), width * count, count);
    assert(width * count / count == width) by (nonlinear_arith)
        requires
            count >= 1,
    ;
    assert(0 <= width * c / count) by (nonlinear_arith)
        requires
            width >= 1,
            c >= 0,
            count >= 1,
    ;
    assert(width * (c + 1) <= width * 8) by (nonlinear_arith)
        requires
            c + 1 <= 8,
            width >= 1,
    ;
}

impl Block {
    /// The largest coherence among the bins `k_lo .. k_lo + n` that can win, no less than zero.
    pub open spec fn coherence(&self, n: int) -> Single
        decreases n,
    {
        if n <= 0 {
            Single { bits: 0 }
        } else if self.live(self.k_lo + n - 1) {
            self.coherence(n - 1).larger(self.rho@[n - 1])
        } else {
            self.coherence(n - 1)
        }
    }

    /// The smallest eigenvalue of any live bin's Gram: half the envelope's energy, less its largest
    /// coherence.
    pub open spec fn least_eigenvalue_of<R: Reals>(&self, r: &R) -> Double {
        r.times_of(
            r.times_of((Double { bits: 0x3fe0_0000_0000_0000 }), self.env.energy),
            r.minus_of((Double { bits: 0x3ff0_0000_0000_0000 }), r.widen_of(self.coherence(self.bins()))),
        )
    }

    /// The smallest eigenvalue of any live bin's Gram.
    pub fn least_eigenvalue<R: Reals>(&self, r: &R) -> (answer: Double)
        requires
            r.repeatable(),
            self.wf(),
        ensures
            answer == self.least_eigenvalue_of(r),
    {
        let mut most = Single { bits: 0 };
        let n: usize = self.k_hi - self.k_lo + 1;
        let mut i: usize = 0;
        while i < n
            invariant
                self.wf(),
                n == self.bins(),
                i <= n,
                most == self.coherence(i as int),
            decreases n - i,
        {
            if self.gram_inv(self.k_lo + i).is_some() {
                most = most.max(self.rho[i]);
            }
            i += 1;
        }
        r.times(r.times((Double { bits: 0x3fe0_0000_0000_0000 }), self.env.energy), r.minus((Double { bits: 0x3ff0_0000_0000_0000 }), r.widen(most)))
    }
}

/// The sum of the magnitudes of an atom's first `n` samples.
pub open spec fn abs_sum<R: Reals>(r: &R, atom: Seq<Single>, n: int) -> Double
    decreases n,
{
    if n <= 0 {
        (Double { bits: 0 })
    } else {
        r.plus_of(abs_sum(r, atom, n - 1), r.widen_of(atom[n - 1]).unsigned())
    }
}

/// The sum of the squares of an atom's first `n` samples.
pub open spec fn square_sum<R: Reals>(r: &R, atom: Seq<Single>, n: int) -> Double
    decreases n,
{
    if n <= 0 {
        (Double { bits: 0 })
    } else {
        let x = r.widen_of(atom[n - 1]);
        r.plus_of(square_sum(r, atom, n - 1), r.times_of(x, x))
    }
}

/// Over an atom's first `n` chunks: the most a frame's correlation with any carrier can change, and
/// the energy of the atom itself.
pub open spec fn swing<R: Reals>(r: &R, chunks: Seq<Chunk>, atom: Seq<Single>, n: int) -> (Double, Double)
    decreases n,
{
    if n <= 0 {
        ((Double { bits: 0 }), (Double { bits: 0 }))
    } else {
        let (d_max, w2) = swing(r, chunks, atom, n - 1);
        let c = chunks[n - 1];
        let a1 = r.minus_of(abs_sum(r, atom, c.to as int), abs_sum(r, atom, c.from as int));
        let a2 = r.minus_of(square_sum(r, atom, c.to as int), square_sum(r, atom, c.from as int));
        (r.plus_of(d_max, r.times_of(r.widen_of(c.env_max), a1)), r.plus_of(w2, a2))
    }
}

/// What a frame that held at most `old_energy` can hold once an atom under it changes.
///
/// A change adds no more energy at any one bin than the atom's own, nor than the square of the most
/// its correlation can be over the Gram's smallest eigenvalue. The margin covers rounding.
pub open spec fn raised_bound_of<R: Reals>(r: &R, old_energy: Double, d_max: Double, w2: Double, lambda_min: Double) -> Double {
    let delta = w2.smaller(r.over_of(r.times_of(d_max, d_max), lambda_min));
    let reach = r.plus_of(r.root_of(old_energy.larger((Double { bits: 0 }))), r.root_of(delta));
    r.plus_of(r.times_of(r.times_of(reach, reach), (Double { bits: 0x3ff0_0068_db8b_ac71 })), (Double { bits: 0x3d71_9799_812d_ea11 }))
}

/// What a frame that held at most `old_energy` can hold once an atom under it changes.
///
/// A change adds no more energy at any one bin than the atom's own, nor than the square of the most
/// its correlation can be over the Gram's smallest eigenvalue. The margin covers rounding.
pub fn raised_bound<R: Reals>(r: &R, old_energy: Double, d_max: Double, w2: Double, lambda_min: Double) -> (answer: Double)
    requires
        r.repeatable(),
    ensures
        answer == raised_bound_of(r, old_energy, d_max, w2, lambda_min),
{
    let delta = w2.min(r.over(r.times(d_max, d_max), lambda_min));
    let reach = r.plus(r.root(old_energy.max((Double { bits: 0 }))), r.root(delta));
    r.plus(r.times(r.times(reach, reach), (Double { bits: 0x3ff0_0068_db8b_ac71 })), (Double { bits: 0x3d71_9799_812d_ea11 }))
}

/// Prefix sums of an atom's magnitudes and of its squares.
fn prefix_sums<R: Reals>(r: &R, atom: &[Single]) -> (answer: (Vec<Double>, Vec<Double>))
    requires
        r.repeatable(),

    ensures
        answer.0@ == Seq::new(atom@.len() + 1, |n: int| abs_sum(r, atom@, n)),
        answer.1@ == Seq::new(atom@.len() + 1, |n: int| square_sum(r, atom@, n)),
{
    let mut a1: Vec<Double> = vec![Double { bits: 0 }];
    let mut a2: Vec<Double> = vec![Double { bits: 0 }];
    let mut sum = Double { bits: 0 };
    let mut squares = Double { bits: 0 };
    let mut n: usize = 0;
    while n < atom.len()
        invariant
            r.repeatable(),
            n <= atom@.len(),
            a1@.len() == n + 1,
            a2@.len() == n + 1,
            sum == abs_sum(r, atom@, n as int),
            squares == square_sum(r, atom@, n as int),
            forall|i: int| 0 <= i <= n ==> #[trigger] a1@[i] == abs_sum(r, atom@, i),
            forall|i: int| 0 <= i <= n ==> #[trigger] a2@[i] == square_sum(r, atom@, i),
        decreases atom@.len() - n,
    {
        let x = r.widen(atom[n]);
        sum = r.plus(sum, x.abs());
        squares = r.plus(squares, r.times(x, x));
        a1.push(sum);
        a2.push(squares);
        n += 1;
    }
    (a1, a2)
}

/// Frames the update of the first `n` blocks touches.
pub open spec fn total_stale(mp: Mp, tau: int, atom_len: int, n: int) -> int
    decreases n,
{
    if n <= 0 {
        0
    } else {
        total_stale(mp, tau, atom_len, n - 1) + mp.stale_frames(n - 1, tau, atom_len)
    }
}

proof fn lemma_total_stale(mp: Mp, tau: int, atom_len: int, bounds: Seq<Vec<Double>>, n: int)
    requires
        0 <= n <= bounds.len(),
        forall|b: int|
            0 <= b < bounds.len() ==> (#[trigger] bounds[b])@.len() == mp.stale_frames(
                b,
                tau,
                atom_len,
            ),
    ensures
        total_bounds(bounds, n) == total_stale(mp, tau, atom_len, n),
    decreases n,
{
    if n > 0 {
        lemma_total_stale(mp, tau, atom_len, bounds, n - 1);
        assert(bounds[n - 1]@.len() == mp.stale_frames(n - 1, tau, atom_len));
    }
}

impl<'a> Mp<'a> {
    /// The bound on frame `n` of block `b` once `atom` is subtracted at `tau`.
    pub open spec fn frame_bound<R: Reals>(&self, r: &R, b: int, n: int, tau: int, atom: Seq<Single>) -> Double {
        let st = self.states@[b];
        let block = self.dict.blocks@[b];
        let chunks = chunks_of(st, n * block.hop, block.support(), tau, atom.len() as int);
        let (d_max, w2) = swing(r, chunks, atom, chunks.len() as int);
        raised_bound_of(r, st.energy@[n], d_max, w2, st.lambda_min)
    }

    /// The bounds on block `b`'s stale frames, in frame order.
    pub open spec fn bounds_for<R: Reals>(&self, r: &R, b: int, tau: int, atom: Seq<Single>) -> Seq<Double> {
        let block = self.dict.blocks@[b];
        let lo = stale_first(block.hop as int, block.support(), tau);
        Seq::new(
            self.stale_frames(b, tau, atom.len() as int) as nat,
            |i: int| self.frame_bound(r, b, lo + i, tau, atom),
        )
    }

    /// A frame's chunks are stretches of the atom.
    proof fn lemma_chunks_are_of_the_atom(&self, b: int, n: int, tau: int, len: int)
        requires
            self.wf(),
            0 <= b < self.states@.len(),
            0 <= n < self.frames_of(b),
            0 <= tau,
            0 <= len,
            tau + len <= usize::MAX,
        ensures
            ({
                let block = self.dict.blocks@[b];
                let chunks = chunks_of(self.states@[b], n * block.hop, block.support(), tau, len);
                forall|i: int|
                    0 <= i < chunks.len() ==> (#[trigger] chunks[i]).from <= chunks[i].to <= len
            }),
    {
        let onset = n * self.dict.blocks@[b].hop;
        let support = self.dict.blocks@[b].support();
        let st = self.states@[b];
        let chunks = chunks_of(st, onset, support, tau, len);
        let (lo, hi) = shared(onset, support, tau, len);
        assert(st.wf(self.frames_of(b), self.dict.blocks@[b].env.samples@));
        assert(onset >= 0) by (nonlinear_arith)
            requires
                onset == n * self.dict.blocks@[b].hop,
                0 <= n,
        ;
        if lo < hi {
            law_chunks_tile_the_overlap(st, onset, support, tau, len);
            lemma_tiles_inside(chunks, lo - tau, hi - tau, st, onset, tau);
        }
    }

    /// The bound on one frame, from prefix sums of the atom.
    #[verifier::spinoff_prover]
    #[verifier::rlimit(60)]
    fn bound_frame<R: Reals>(
        &self,
        r: &R,
        b: usize,
        n: usize,
        tau: usize,
        atom: &[Single],
        a1: &[Double],
        a2: &[Double],
    ) -> (answer: Double)
        requires
            r.repeatable(),
            self.wf(),
            b < self.states@.len(),
            n < self.frames_of(b as int),
            tau + atom@.len() <= usize::MAX,
            a1@ == Seq::new(atom@.len() + 1, |n: int| abs_sum(r, atom@, n)),
            a2@ == Seq::new(atom@.len() + 1, |n: int| square_sum(r, atom@, n)),
        ensures
            answer == self.frame_bound(r, b as int, n as int, tau as int, atom@),
    {
        assert(self.states@[b as int].wf(
            self.frames_of(b as int),
            self.dict.blocks@[b as int].env.samples@,
        ));
        let chunks = self.bound_chunks(b, n, tau, atom.len());
        proof {
            self.lemma_chunks_are_of_the_atom(b as int, n as int, tau as int, atom@.len() as int);
        }
        let mut d_max = Double { bits: 0 };
        let mut w2 = Double { bits: 0 };
        let mut c: usize = 0;
        while c < chunks.len()
            invariant
                r.repeatable(),
                c <= chunks@.len(),
                a1@ == Seq::new(atom@.len() + 1, |n: int| abs_sum(r, atom@, n)),
                a2@ == Seq::new(atom@.len() + 1, |n: int| square_sum(r, atom@, n)),
                forall|i: int|
                    0 <= i < chunks@.len() ==> (#[trigger] chunks@[i]).from <= chunks@[i].to
                        <= atom@.len(),
                (d_max, w2) == swing(r, chunks@, atom@, c as int),
            decreases chunks@.len() - c,
        {
            let x = chunks[c];
            assert(chunks@[c as int].to <= atom@.len());
            d_max = r.plus(d_max, r.times(r.widen(x.env_max), r.minus(a1[x.to], a1[x.from])));
            w2 = r.plus(w2, r.minus(a2[x.to], a2[x.from]));
            c += 1;
        }
        let st = &self.states[b];
        raised_bound(r, st.energy[n], d_max, w2, st.lambda_min)
    }

    /// The bounds on block `b`'s stale frames, in frame order.
    fn bound_block<R: Reals>(
        &self,
        r: &R,
        b: usize,
        tau: usize,
        atom: &[Single],
        a1: &[Double],
        a2: &[Double],
    ) -> (answer: Vec<Double>)
        requires
            r.repeatable(),
            self.wf(),
            b < self.states@.len(),
            atom@.len() > 0,
            tau + atom@.len() <= usize::MAX,
            a1@ == Seq::new(atom@.len() + 1, |n: int| abs_sum(r, atom@, n)),
            a2@ == Seq::new(atom@.len() + 1, |n: int| square_sum(r, atom@, n)),
        ensures
            answer@ == self.bounds_for(r, b as int, tau as int, atom@),
    {
        let mut out: Vec<Double> = Vec::new();
        let (lo, hi) = match self.stale_range(b, tau, atom.len()) {
            Some(range) => range,
            None => {
                proof {
                    self.lemma_no_range(b as int, tau as int, atom@.len() as int);
                }
                return out;
            },
        };
        proof {
            self.lemma_range(b as int, tau as int, atom@.len() as int, lo as int, hi as int);
        }
        let mut n: usize = lo;
        while n <= hi
            invariant
                r.repeatable(),
                self.wf(),
                b < self.states@.len(),
                tau + atom@.len() <= usize::MAX,
                a1@ == Seq::new(atom@.len() + 1, |n: int| abs_sum(r, atom@, n)),
                a2@ == Seq::new(atom@.len() + 1, |n: int| square_sum(r, atom@, n)),
                lo <= n <= hi + 1,
                hi < self.frames_of(b as int) <= usize::MAX,
                out@.len() == n - lo,
                forall|i: int|
                    0 <= i < out@.len() ==> #[trigger] out@[i] == self.frame_bound(
                        r,
                        b as int,
                        lo + i,
                        tau as int,
                        atom@,
                    ),
            decreases hi + 1 - n,
        {
            out.push(self.bound_frame(r, b, n, tau, atom, a1, a2));
            n += 1;
        }
        assert(out@ =~= self.bounds_for(r, b as int, tau as int, atom@));
        out
    }

    /// Frames an update at `tau` touches, over every block, as far as a count reaches.
    fn stale_total(&self, tau: usize, atom_len: usize) -> (answer: usize)
        requires
            self.wf(),
            atom_len > 0,
            tau + atom_len <= usize::MAX,
        ensures
            answer == counted(total_stale(*self, tau as int, atom_len as int, self.states@.len() as int)),
    {
        let mut sum: usize = 0;
        let mut b: usize = 0;
        while b < self.states.len()
            invariant
                self.wf(),
                atom_len > 0,
                tau + atom_len <= usize::MAX,
                b <= self.states@.len(),
                sum == counted(total_stale(*self, tau as int, atom_len as int, b as int)),
                total_stale(*self, tau as int, atom_len as int, b as int) >= 0,
            decreases self.states@.len() - b,
        {
            match self.stale_range(b, tau, atom_len) {
                Some((lo, hi)) => {
                    proof {
                        self.lemma_range(b as int, tau as int, atom_len as int, lo as int, hi as int);
                        assert(self.states@[b as int].wf(
                            self.frames_of(b as int),
                            self.dict.blocks@[b as int].env.samples@,
                        ));
                    }
                    sum = sum.saturating_add(hi - lo + 1);
                },
                None => {
                    proof {
                        self.lemma_no_range(b as int, tau as int, atom_len as int);
                    }
                },
            }
            b += 1;
        }
        sum
    }

    /// Bound every frame whose read window overlaps the subtracted atom, without transforming any.
    ///
    /// `atom` holds the samples that landed at `tau`. Each block bounds only its own frames, so the
    /// blocks go across the pool once there are enough stale frames to pay for waking it.
    pub fn mark_stale<R: Reals + Sync>(&mut self, r: &R, tau: usize, atom: &[Single])
        requires
            r.repeatable(),
            old(self).wf(),
            tau + atom@.len() <= usize::MAX,
        ensures
            final(self).wf(),
            final(self).same_shape(*old(self)),
            forall|b: int|
                0 <= b < old(self).states@.len() ==> old(self).bounded(
                    b,
                    #[trigger] final(self).states@[b],
                    tau as int,
                    atom@.len() as int,
                    old(self).bounds_for(r, b, tau as int, atom@),
                ),
            final(self).resolved == old(self).resolved,
            final(self).marked == counted(
                old(self).marked + if atom@.len() == 0 {
                    0
                } else {
                    total_stale(
                        *old(self),
                        tau as int,
                        atom@.len() as int,
                        old(self).states@.len() as int,
                    )
                },
            ),
            forall|b: int|
                0 <= b < old(self).states@.len() ==> #[trigger] final(self).per_block@[b] == (
                    counted(
                        old(self).per_block@[b].0 + if atom@.len() == 0 {
                            0
                        } else {
                            old(self).stale_frames(b, tau as int, atom@.len() as int)
                        },
                    ) as usize,
                    old(self).per_block@[b].1,
                ),
    {
        if atom.len() == 0 {
            return;
        }
        let sums = prefix_sums(r, atom);
        let a1 = sums.0.as_slice();
        let a2 = sums.1.as_slice();
        let n: usize = self.states.len();
        let bounds = if self.stale_total(tau, atom.len()) >= PARALLEL_BOUND_FRAMES {
            let tables = &*self;
            let own = |b: usize| -> (bounds: Vec<Double>)
                requires
                    r.repeatable(),
                    tables.wf(),
                    b < tables.states@.len(),
                    atom@.len() > 0,
                    tau + atom@.len() <= usize::MAX,
                    a1@ == Seq::new(atom@.len() + 1, |n: int| abs_sum(r, atom@, n)),
                    a2@ == Seq::new(atom@.len() + 1, |n: int| square_sum(r, atom@, n)),
                ensures
                    bounds@ == tables.bounds_for(r, b as int, tau as int, atom@),
                { tables.bound_block(r, b, tau, atom, a1, a2) };
            let out = spread(n, own);
            assert forall|b: int| 0 <= b < n implies (#[trigger] out@[b])@ == self.bounds_for(
                r,
                b,
                tau as int,
                atom@,
            ) by {
                assert(call_ensures(own, (b as usize,), out@[b]));
            }
            out
        } else {
            let mut out: Vec<Vec<Double>> = Vec::new();
            let mut b: usize = 0;
            while b < n
                invariant
                    r.repeatable(),
                    self.wf(),
                    *self == *old(self),
                    n == self.states@.len(),
                    b <= n,
                    atom@.len() > 0,
                    tau + atom@.len() <= usize::MAX,
                    a1@ == Seq::new(atom@.len() + 1, |n: int| abs_sum(r, atom@, n)),
                    a2@ == Seq::new(atom@.len() + 1, |n: int| square_sum(r, atom@, n)),
                    out@.len() == b,
                    forall|i: int|
                        0 <= i < b ==> (#[trigger] out@[i])@ == self.bounds_for(
                            r,
                            i,
                            tau as int,
                            atom@,
                        ),
                decreases n - b,
            {
                out.push(self.bound_block(r, b, tau, atom, a1, a2));
                b += 1;
            }
            out
        };
        proof {
            assert forall|b: int| 0 <= b < bounds@.len() implies (#[trigger] bounds@[b])@.len()
                == self.stale_frames(b, tau as int, atom@.len() as int) by {
                self.lemma_stale_nonneg(b, tau as int, atom@.len() as int);
            }
            lemma_total_stale(
                *self,
                tau as int,
                atom@.len() as int,
                bounds@,
                bounds@.len() as int,
            );
        }
        self.mark_bounds(tau, atom.len(), bounds.as_slice());
    }

    proof fn lemma_stale_nonneg(&self, b: int, tau: int, atom_len: int)
        requires
            self.wf(),
            0 <= b < self.states@.len(),
        ensures
            self.stale_frames(b, tau, atom_len) >= 0,
    {
    }
}

/// Chunks that lie end to end lie between the ends.
proof fn lemma_tiles_inside(chunks: Seq<Chunk>, from: int, to: int, st: BlockState, onset: int, tau: int)
    requires
        tiles(chunks, from, to, st, onset, tau),
    ensures
        forall|c: int| 0 <= c < chunks.len() ==> (#[trigger] chunks[c]).to <= to,
{
    assert forall|c: int| 0 <= c < chunks.len() implies (#[trigger] chunks[c]).to <= to by {
        lemma_tile_inside(chunks, from, to, st, onset, tau, c);
    }
}

proof fn lemma_tile_inside(
    chunks: Seq<Chunk>,
    from: int,
    to: int,
    st: BlockState,
    onset: int,
    tau: int,
    c: int,
)
    requires
        tiles(chunks, from, to, st, onset, tau),
        0 <= c < chunks.len(),
    ensures
        chunks[c].to <= to,
    decreases chunks.len() - c,
{
    if c < chunks.len() - 1 {
        lemma_tile_inside(chunks, from, to, st, onset, tau, c + 1);
        assert(chunks[c + 1 - 1].to == chunks[c + 1].from);
        assert(chunks[c + 1].from < chunks[c + 1].to);
    }
}

/// Every seed a search promotes is a frame of its block's table.
pub proof fn lemma_seeds_in_tables(mp: Mp, k: int)
    requires
        mp.wf(),
        k >= 0,
    ensures
        forall|i: int|
            0 <= i < selection(mp.table_views(), k).len() ==> {
                let s = #[trigger] selection(mp.table_views(), k)[i];
                &&& s.block < mp.states@.len()
                &&& s.frame < mp.frames_of(s.block as int)
                &&& s.onset == s.frame * mp.dict.blocks@[s.block as int].hop
                &&& s.onset < mp.len
            },
{
    let ts = mp.table_views();
    assert forall|b: int| 0 <= b < mp.states@.len() implies (#[trigger] mp.states@[b]).energy@.len()
        == mp.frames_of(b) && mp.frames_of(b) <= usize::MAX by {
        assert(mp.states@[b].wf(mp.frames_of(b), mp.dict.blocks@[b].env.samples@));
        assert(mp.states@[b].energy.len() == mp.states@[b].energy@.len());
    }
    assert(mp.states.len() == mp.states@.len());
    assert(indexable(ts)) by {
        assert forall|i: int| 0 <= i < ts.len() implies (#[trigger] ts[i]).seen.len() <= usize::MAX by {
            assert(mp.states@[i].energy@.len() == mp.frames_of(i));
        }
    }
    assert(distinct_blocks(ts));
    law_selection(ts, k);
    let r = selection(ts, k);
    assert forall|i: int| 0 <= i < r.len() implies {
        let s = #[trigger] r[i];
        &&& s.block < mp.states@.len()
        &&& s.frame < mp.frames_of(s.block as int)
        &&& s.onset == s.frame * mp.dict.blocks@[s.block as int].hop
        &&& s.onset < mp.len
    } by {
        let s = r[i];
        assert(is_max(ts, s));
        let (b, n) = choose|b: int, n: int|
            0 <= b < ts.len() && #[trigger] peak(ts[b], n) && s == seed_at(ts[b], n);
        assert(mp.states@[b].energy@.len() == mp.frames_of(b));
        assert(mp.dict.blocks@[b].wf());
        let hop = mp.dict.blocks@[b].hop as int;
        law_frames_cover_the_signal(hop, mp.len as int);
        assert(n * hop <= (mp.frames_of(b) - 1) * hop) by (nonlinear_arith)
            requires
                0 <= n <= mp.frames_of(b) - 1,
                hop >= 1,
        ;
        assert(0 <= n * hop) by (nonlinear_arith)
            requires
                0 <= n,
                hop >= 1,
        ;
    }
}

/// The frames a search must have recomputed are dirty frames of their tables, in order.
pub proof fn lemma_pending(mp: Mp, b: int, k: int)
    requires
        mp.wf(),
        0 <= b < mp.states@.len(),
    ensures
        ascending(mp.pending(b, k)),
        mp.pending(b, k).len() <= mp.frames_of(b),
        forall|i: int|
            0 <= i < mp.pending(b, k).len() ==> {
                &&& #[trigger] mp.pending(b, k)[i] < mp.frames_of(b)
                &&& mp.states@[b].dirty@[mp.pending(b, k)[i] as int]
            },
{
    let st = mp.states@[b];
    assert(st.wf(mp.frames_of(b), mp.dict.blocks@[b].env.samples@));
    assert(st.energy.len() == st.energy@.len());
    lemma_dirty_list(st, Some(mp.line(k)), st.energy@.len() as int);
    lemma_dirty_len(st, Some(mp.line(k)), st.energy@.len() as int);
    assert forall|i: int| 0 <= i < mp.pending(b, k).len() implies {
        &&& #[trigger] mp.pending(b, k)[i] < mp.frames_of(b)
        &&& st.dirty@[mp.pending(b, k)[i] as int]
    } by {
        assert(mp.pending(b, k).contains(mp.pending(b, k)[i]));
    }
}

proof fn lemma_dirty_len(st: BlockState, line: Option<Double>, n: int)
    requires
        0 <= n,
    ensures
        dirty_list(st, line, n).len() <= n,
    decreases n,
{
    if n > 0 {
        lemma_dirty_len(st, line, n - 1);
    }
}

} // verus!
