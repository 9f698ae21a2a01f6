//! A low-passed, decimated copy of the residual, for correlating the longest blocks at a fraction of
//! the rate.
//!
//! The filter runs once over the signal and then only over the stretch each subtracted atom changed,
//! recomputed rather than updated, so nothing drifts.

use crate::ieee::{Double, Single};
use crate::reals::Reals;
use vstd::arithmetic::div_mod::lemma_fundamental_div_mod;
use vstd::prelude::*;

verus! {

/// A zero-phase low-pass filter and the factor it decimates by.
pub struct Decimator {
    pub factor: usize,
    /// `h[j - half]` for `j = 0 ..= 2 * half`, summing to one.
    pub taps: Vec<Single>,
    pub half: usize,
    /// Passband edge and stopband edge, Hz, as designed.
    pub f_pass: Double,
    pub f_stop: Double,
    pub attenuation_db: Double,
}

/// The factors a transform length can be divided by, largest first.
pub open spec fn factors() -> Seq<usize> {
    seq![8usize, 6, 5, 4, 3, 2]
}

/// `n / d`, rounded up.
pub open spec fn up(n: int, d: int) -> int {
    (n + d - 1) / d
}

fn divide_up(n: usize, d: usize) -> (r: usize)
    requires
        d >= 1,
    ensures
        r == up(n as int, d as int),
        r <= n,
{
    proof {
        lemma_up(n as int, d as int);
    }
    if n == 0 {
        0
    } else {
        (n - 1) / d + 1
    }
}

proof fn lemma_up(n: int, d: int)
    requires
        n >= 0,
        d >= 1,
    ensures
        n == 0 ==> up(n, d) == 0,
        n > 0 ==> up(n, d) == (n - 1) / d + 1,
        0 <= up(n, d) <= n,
        up(n, d) * d >= n,
        n > 0 ==> (up(n, d) - 1) * d < n,
{
    if n == 0 {
        assert((d - 1) / d == 0) by (nonlinear_arith)
            requires
                d >= 1,
        ;
    } else {
        assert((n + d - 1) / d == (n - 1) / d + 1) by (nonlinear_arith)
            requires
                d >= 1,
                n >= 1,
        ;
        assert(0 <= (n - 1) / d <= n - 1) by (nonlinear_arith)
            requires
                d >= 1,
                n >= 1,
        ;
    }
    lemma_fundamental_div_mod(n + d - 1, d);
    let q = (n + d - 1) / d;
    assert(q * d == d * q) by (nonlinear_arith);
    assert((q - 1) * d == q * d - d) by (nonlinear_arith);
}

/// Lane `k` of an eight-lane inner product, over the first `n` rows.
pub open spec fn lane<R: Reals>(r: &R, a: Seq<Single>, b: Seq<Single>, k: int, n: int) -> Single
    decreases n,
{
    if n <= 0 {
        (Single { bits: 0 })
    } else {
        let i = 8 * (n - 1) + k;
        r.plus_single_of(lane(r, a, b, k, n - 1), r.times_single_of(a[i], b[i]))
    }
}

/// The sum of the first `k` lanes.
pub open spec fn lanes<R: Reals>(r: &R, a: Seq<Single>, b: Seq<Single>, k: int) -> Single
    decreases k,
{
    if k <= 0 {
        (Single { bits: 0x8000_0000 })
    } else {
        r.plus_single_of(lanes(r, a, b, k - 1), lane(r, a, b, k - 1, a.len() as int / 8))
    }
}

/// The lanes, and the samples after the last whole row up to `n`.
pub open spec fn dot_to<R: Reals>(r: &R, a: Seq<Single>, b: Seq<Single>, n: int) -> Single
    decreases n,
{
    if n <= a.len() as int / 8 * 8 {
        lanes(r, a, b, 8)
    } else {
        r.plus_single_of(dot_to(r, a, b, n - 1), r.times_single_of(a[n - 1], b[n - 1]))
    }
}

/// The inner product of two runs of samples, in eight lanes.
pub open spec fn dot_of<R: Reals>(r: &R, a: Seq<Single>, b: Seq<Single>) -> Single {
    dot_to(r, a, b, a.len() as int)
}

/// The inner product of two runs of samples, in eight lanes.
fn dot<R: Reals>(r: &R, a: &[Single], b: &[Single]) -> (answer: Single)
    requires
        r.repeatable(),
        a@.len() == b@.len(),
    ensures
        answer == dot_of(r, a@, b@),
{
    let rows: usize = a.len() / 8;
    let mut sum = (Single { bits: 0x8000_0000 });
    let mut k: usize = 0;
    while k < 8
        invariant
            r.repeatable(),
            a@.len() == b@.len(),
            rows == a@.len() / 8,
            8 * rows <= usize::MAX,
            k <= 8,
            sum == lanes(r, a@, b@, k as int),
        decreases 8 - k,
    {
        let mut one = (Single { bits: 0 });
        let mut n: usize = 0;
        while n < rows
            invariant
                r.repeatable(),
                a@.len() == b@.len(),
                rows == a@.len() / 8,
                8 * rows <= usize::MAX,
                k < 8,
                n <= rows,
                one == lane(r, a@, b@, k as int, n as int),
            decreases rows - n,
        {
            one = r.plus_single(one, r.times_single(a[8 * n + k], b[8 * n + k]));
            n += 1;
        }
        sum = r.plus_single(sum, one);
        k += 1;
    }
    let mut n: usize = rows * 8;
    while n < a.len()
        invariant
            r.repeatable(),
            a@.len() == b@.len(),
            rows == a@.len() / 8,
            rows * 8 <= n <= a@.len(),
            sum == dot_to(r, a@, b@, n as int),
        decreases a@.len() - n,
    {
        sum = r.plus_single(sum, r.times_single(a[n], b[n]));
        n += 1;
    }
    sum
}

/// The first `n` taps of a filter centred on `centre`, times the samples under them, read as zero
/// outside.
pub open spec fn edge_to<R: Reals>(
    r: &R,
    d: Decimator,
    residual: Seq<Single>,
    centre: int,
    n: int,
) -> Single
    decreases n,
{
    if n <= 0 {
        (Single { bits: 0 })
    } else {
        let rest = edge_to(r, d, residual, centre, n - 1);
        let i = centre + n - 1 - d.half;
        if 0 <= i < residual.len() {
            r.plus_single_of(rest, r.times_single_of(d.taps@[n - 1], residual[i]))
        } else {
            rest
        }
    }
}

/// Output `m` of a filter: an inner product where the whole of it fits the residual, the taps that
/// do where it does not.
pub open spec fn filtered<R: Reals>(r: &R, d: Decimator, residual: Seq<Single>, m: int) -> Single {
    let centre = m * d.factor;
    if centre >= d.half && centre + d.half < residual.len() {
        dot_of(r, d.taps@, residual.subrange(centre - d.half, centre + d.half + 1))
    } else {
        edge_to(r, d, residual, centre, d.taps@.len() as int)
    }
}

/// Where a factor's passband ends and its stopband begins, Hz.
pub open spec fn edges_at<R: Reals>(r: &R, fs: Double, f_max: Double, factor: usize) -> (Double, Double) {
    (
        r.plus_of(f_max, (Double { bits: 0x4062_c000_0000_0000 })),
        r.minus_of(r.minus_of(r.over_of(fs, r.count_of(factor)), f_max), (Double { bits: 0x4062_c000_0000_0000 })),
    )
}

/// A factor leaves a usable transition band.
pub open spec fn usable<R: Reals>(r: &R, fs: Double, f_max: Double, factor: usize) -> bool {
    let (f_pass, f_stop) = edges_at(r, fs, f_max, factor);
    (Double { bits: 0x4089_0000_0000_0000 }).at_most(r.minus_of(f_stop, f_pass))
}

/// The first usable factor from the `i`th on.
pub open spec fn factor_from<R: Reals>(r: &R, fs: Double, f_max: Double, i: int) -> Option<usize>
    decreases factors().len() - i,
{
    if i >= factors().len() {
        None
    } else if usable(r, fs, f_max, factors()[i]) {
        Some(factors()[i])
    } else {
        factor_from(r, fs, f_max, i + 1)
    }
}

/// A factor, once one is found, is usable, and no larger one is.
pub proof fn law_the_factor_is_the_largest_usable<R: Reals>(r: &R, fs: Double, f_max: Double, i: int)
    requires
        0 <= i <= factors().len(),
    ensures
        match factor_from(r, fs, f_max, i) {
            Some(d) => exists|j: int|
                {
                    &&& i <= j < factors().len()
                    &&& #[trigger] factors()[j] == d
                    &&& usable(r, fs, f_max, d)
                    &&& forall|k: int| i <= k < j ==> !usable(r, fs, f_max, #[trigger] factors()[k])
                },
            None => forall|k: int|
                i <= k < factors().len() ==> !usable(r, fs, f_max, #[trigger] factors()[k]),
        },
    decreases factors().len() - i,
{
    if i < factors().len() && !usable(r, fs, f_max, factors()[i]) {
        law_the_factor_is_the_largest_usable(r, fs, f_max, i + 1);
    }
}

/// Terms `k` to 63 of the power series of the zeroth-order modified Bessel function, stopped once one
/// no longer counts.
pub open spec fn bessel_from<R: Reals>(r: &R, half: Double, k: int, sum: Double, term: Double) -> Double
    decreases 64 - k,
{
    if k >= 64 {
        sum
    } else {
        let next = r.times_of(term, r.over_of(half, r.count_of(k as usize)));
        let t = r.times_of(next, next);
        let sum = r.plus_of(sum, t);
        if t.less(r.times_of(sum, (Double { bits: 0x3c67_0ef5_4646_d497 }))) {
            sum
        } else {
            bessel_from(r, half, k + 1, sum, next)
        }
    }
}

/// The zeroth-order modified Bessel function of the first kind, by its power series.
pub open spec fn bessel_i0_of<R: Reals>(r: &R, x: Double) -> Double {
    bessel_from(r, r.over_of(x, (Double { bits: 0x4000_0000_0000_0000 })), 1, (Double { bits: 0x3ff0_0000_0000_0000 }), (Double { bits: 0x3ff0_0000_0000_0000 }))
}

/// The zeroth-order modified Bessel function of the first kind, by its power series.
fn bessel_i0<R: Reals>(r: &R, x: Double) -> (answer: Double)
    requires
        r.repeatable(),
    ensures
        answer == bessel_i0_of(r, x),
{
    let half = r.over(x, (Double { bits: 0x4000_0000_0000_0000 }));
    let mut sum = (Double { bits: 0x3ff0_0000_0000_0000 });
    let mut term = (Double { bits: 0x3ff0_0000_0000_0000 });
    let mut k: usize = 1;
    while k < 64
        invariant
            r.repeatable(),
            1 <= k <= 64,
            bessel_from(r, half, k as int, sum, term) == bessel_i0_of(r, x),
        decreases 64 - k,
    {
        term = r.times(term, r.over(half, r.count(k)));
        let t = r.times(term, term);
        sum = r.plus(sum, t);
        if t.lt(r.times(sum, (Double { bits: 0x3c67_0ef5_4646_d497 }))) {
            return sum;
        }
        k += 1;
    }
    sum
}

/// A filter's half-length.
pub open spec fn half_for<R: Reals>(r: &R, fs: Double, f_pass: Double, f_stop: Double) -> int {
    let width = r.over_of(r.times_of((Double { bits: 0x4019_21fb_5444_2d18 }), r.minus_of(f_stop, f_pass)), fs);
    up(r.whole_of(r.ceil_of(r.over_of((Double { bits: 0x4054_8000_0000_0000 }), r.times_of((Double { bits: 0x4002_47ae_147a_e148 }), width)))) as int, 2)
}

/// Tap `j` of a Kaiser-windowed sinc, before it is scaled.
pub open spec fn raw_tap_of<R: Reals>(r: &R, cutoff: Double, half: usize, j: usize) -> Double {
    let n = r.minus_of(r.count_of(j), r.count_of(half));
    let sinc = if n.equals((Double { bits: 0 })) {
        r.times_of((Double { bits: 0x4000_0000_0000_0000 }), cutoff)
    } else {
        r.over_of(r.sine_of(r.times_of(r.times_of((Double { bits: 0x4019_21fb_5444_2d18 }), cutoff), n)), r.times_of((Double { bits: 0x4009_21fb_5444_2d18 }), n))
    };
    let along = r.over_of(n, r.count_of(half));
    let taper = r.root_of(r.minus_of((Double { bits: 0x3ff0_0000_0000_0000 }), r.times_of(along, along)).larger((Double { bits: 0 })));
    r.over_of(
        r.times_of(sinc, bessel_i0_of(r, r.times_of((Double { bits: 0x4021_eb24_2070_b8d0 }), taper))),
        bessel_i0_of(r, (Double { bits: 0x4021_eb24_2070_b8d0 })),
    )
}

/// Tap `j` of a Kaiser-windowed sinc, before it is scaled.
pub fn raw_tap<R: Reals>(r: &R, cutoff: Double, half: usize, j: usize) -> (answer: Double)
    requires
        r.repeatable(),
    ensures
        answer == raw_tap_of(r, cutoff, half, j),
{
    let n = r.minus(r.count(j), r.count(half));
    let sinc = if n.same((Double { bits: 0 })) {
        r.times((Double { bits: 0x4000_0000_0000_0000 }), cutoff)
    } else {
        r.over(r.sine(r.times(r.times((Double { bits: 0x4019_21fb_5444_2d18 }), cutoff), n)), r.times((Double { bits: 0x4009_21fb_5444_2d18 }), n))
    };
    let along = r.over(n, r.count(half));
    let taper = r.root(r.minus((Double { bits: 0x3ff0_0000_0000_0000 }), r.times(along, along)).max((Double { bits: 0 })));
    r.over(
        r.times(sinc, bessel_i0(r, r.times((Double { bits: 0x4021_eb24_2070_b8d0 }), taper))),
        bessel_i0(r, (Double { bits: 0x4021_eb24_2070_b8d0 })),
    )
}

/// The sum of the first `n` raw taps.
pub open spec fn tap_sum<R: Reals>(r: &R, cutoff: Double, half: usize, n: int) -> Double
    decreases n,
{
    if n <= 0 {
        (Double { bits: 0x8000_0000_0000_0000 })
    } else {
        r.plus_of(tap_sum(r, cutoff, half, n - 1), raw_tap_of(r, cutoff, half, (n - 1) as usize))
    }
}

/// Cycles per sample midway between the edges.
pub open spec fn cutoff_at<R: Reals>(r: &R, fs: Double, f_pass: Double, f_stop: Double) -> Double {
    r.over_of(r.over_of(r.plus_of(f_pass, f_stop), (Double { bits: 0x4000_0000_0000_0000 })), fs)
}

/// `d` is the filter for a factor: a Kaiser-windowed sinc with its cutoff midway between the edges,
/// its taps summing to one.
pub open spec fn designed<R: Reals>(r: &R, fs: Double, f_max: Double, factor: usize, d: Decimator) -> bool {
    let (f_pass, f_stop) = edges_at(r, fs, f_max, factor);
    let cutoff = cutoff_at(r, fs, f_pass, f_stop);
    &&& d.wf()
    &&& d.factor == factor
    &&& d.f_pass == f_pass
    &&& d.f_stop == f_stop
    &&& d.attenuation_db == (Double { bits: 0x4056_8000_0000_0000 })
    &&& d.half == half_for(r, fs, f_pass, f_stop)
    &&& forall|j: int|
        0 <= j < d.taps@.len() ==> #[trigger] d.taps@[j] == r.narrow_of(
            r.over_of(
                raw_tap_of(r, cutoff, d.half, j as usize),
                tap_sum(r, cutoff, d.half, d.taps@.len() as int),
            ),
        )
}

/// The sum of the first `n` terms of a filter's response at an angular frequency.
pub open spec fn response_to<R: Reals>(r: &R, d: Decimator, w: Double, n: int) -> Double
    decreases n,
{
    if n <= 0 {
        (Double { bits: 0x8000_0000_0000_0000 })
    } else {
        let at = r.minus_of(r.count_of((n - 1) as usize), r.count_of(d.half));
        r.plus_of(
            response_to(r, d, w, n - 1),
            r.times_of(r.widen_of(d.taps@[n - 1]), r.cosine_of(r.times_of(w, at))),
        )
    }
}

impl Decimator {
    pub open spec fn wf(&self) -> bool {
        self.factor >= 1 && self.taps@.len() == 2 * self.half + 1
    }

    /// The largest factor that keeps every alias of `[0, f_max]` in the stopband with a usable
    /// transition band, or `None` if even the smallest does not.
    pub fn factor_for<R: Reals>(r: &R, sample_rate: Single, f_max: Single) -> (answer: Option<usize>)
        requires
            r.repeatable(),
        ensures
            answer == factor_from(r, r.widen_of(sample_rate), r.widen_of(f_max), 0),
    {
        let fs = r.widen(sample_rate);
        let top = r.widen(f_max);
        let all: [usize; 6] = [8, 6, 5, 4, 3, 2];
        assert(all@ =~= factors());
        let mut i: usize = 0;
        while i < 6
            invariant
                r.repeatable(),
                i <= 6,
                all@ == factors(),
                fs == r.widen_of(sample_rate),
                top == r.widen_of(f_max),
                factor_from(r, fs, top, i as int) == factor_from(r, fs, top, 0),
            decreases 6 - i,
        {
            let (f_pass, f_stop) = Decimator::edges(r, fs, top, all[i]);
            if (Double { bits: 0x4089_0000_0000_0000 }).le(r.minus(f_stop, f_pass)) {
                return Some(all[i]);
            }
            i += 1;
        }
        None
    }

    fn edges<R: Reals>(r: &R, fs: Double, f_max: Double, factor: usize) -> (answer: (Double, Double))
        requires
            r.repeatable(),
        ensures
            answer == edges_at(r, fs, f_max, factor),
    {
        (
            r.plus(f_max, (Double { bits: 0x4062_c000_0000_0000 })),
            r.minus(r.minus(r.over(fs, r.count(factor)), f_max), (Double { bits: 0x4062_c000_0000_0000 })),
        )
    }

    /// The filter for the largest usable factor, where there is one.
    pub fn design<R: Reals>(r: &R, sample_rate: Single, f_max: Single) -> (answer: Option<Decimator>)
        requires
            r.repeatable(),
            factor_from(r, r.widen_of(sample_rate), r.widen_of(f_max), 0) matches Some(factor) ==> {
                let (fs, top) = (r.widen_of(sample_rate), r.widen_of(f_max));
                let (f_pass, f_stop) = edges_at(r, fs, top, factor);
                2 * half_for(r, fs, f_pass, f_stop) + 1 <= usize::MAX
            },
        ensures
            match factor_from(r, r.widen_of(sample_rate), r.widen_of(f_max), 0) {
                Some(factor) => answer matches Some(d) && designed(
                    r,
                    r.widen_of(sample_rate),
                    r.widen_of(f_max),
                    factor,
                    d,
                ),
                None => answer is None,
            },
    {
        let factor: usize = match Decimator::factor_for(r, sample_rate, f_max) {
            Some(factor) => factor,
            None => {
                return None;
            },
        };
        let fs = r.widen(sample_rate);
        let (f_pass, f_stop) = Decimator::edges(r, fs, r.widen(f_max), factor);
        proof {
            law_the_factor_is_the_largest_usable(r, fs, r.widen_of(f_max), 0);
            assert(factor >= 2);
        }
        let width = r.over(r.times((Double { bits: 0x4019_21fb_5444_2d18 }), r.minus(f_stop, f_pass)), fs);
        let len: usize = r.whole(r.ceil(r.over((Double { bits: 0x4054_8000_0000_0000 }), r.times((Double { bits: 0x4002_47ae_147a_e148 }), width))));
        let half: usize = divide_up(len, 2);
        let cutoff = r.over(r.over(r.plus(f_pass, f_stop), (Double { bits: 0x4000_0000_0000_0000 })), fs);
        let n: usize = 2 * half + 1;
        let mut raw: Vec<Double> = Vec::new();
        let mut sum = (Double { bits: 0x8000_0000_0000_0000 });
        let mut j: usize = 0;
        while j < n
            invariant
                r.repeatable(),
                j <= n,
                raw@.len() == j,
                sum == tap_sum(r, cutoff, half, j as int),
                forall|i: int|
                    0 <= i < j ==> #[trigger] raw@[i] == raw_tap_of(r, cutoff, half, i as usize),
            decreases n - j,
        {
            let h = raw_tap(r, cutoff, half, j);
            sum = r.plus(sum, h);
            raw.push(h);
            j += 1;
        }
        let mut taps: Vec<Single> = Vec::new();
        let mut j: usize = 0;
        while j < n
            invariant
                r.repeatable(),
                j <= n,
                raw@.len() == n,
                taps@.len() == j,
                forall|i: int|
                    0 <= i < n ==> #[trigger] raw@[i] == raw_tap_of(r, cutoff, half, i as usize),
                forall|i: int|
                    0 <= i < j ==> #[trigger] taps@[i] == r.narrow_of(
                        r.over_of(raw_tap_of(r, cutoff, half, i as usize), sum),
                    ),
            decreases n - j,
        {
            taps.push(r.narrow(r.over(raw[j], sum)));
            j += 1;
        }
        Some(Decimator { factor, taps, half, f_pass, f_stop, attenuation_db: (Double { bits: 0x4056_8000_0000_0000 }) })
    }

    /// The filter's response at `f` Hz, which is real.
    pub fn response<R: Reals>(&self, r: &R, f: Double, sample_rate: Single) -> (answer: Double)
        requires
            r.repeatable(),
        ensures
            answer == response_to(
                r,
                *self,
                r.over_of(r.times_of((Double { bits: 0x4019_21fb_5444_2d18 }), f), r.widen_of(sample_rate)),
                self.taps@.len() as int,
            ),
    {
        let w = r.over(r.times((Double { bits: 0x4019_21fb_5444_2d18 }), f), r.widen(sample_rate));
        let mut sum = (Double { bits: 0x8000_0000_0000_0000 });
        let mut j: usize = 0;
        while j < self.taps.len()
            invariant
                r.repeatable(),
                j <= self.taps@.len(),
                sum == response_to(r, *self, w, j as int),
            decreases self.taps@.len() - j,
        {
            let at = r.minus(r.count(j), r.count(self.half));
            sum = r.plus(sum, r.times(r.widen(self.taps[j]), r.cosine(r.times(w, at))));
            j += 1;
        }
        sum
    }

    /// Length of the decimated signal for a residual of `len` samples.
    pub fn output_len(&self, len: usize) -> (r: usize)
        requires
            self.factor >= 1,
        ensures
            r == up(len as int, self.factor as int),
            r <= len,
    {
        divide_up(len, self.factor)
    }

    /// The decimated samples that read any of residual samples `[start, end)`.
    pub fn affected(&self, start: usize, end: usize, out_len: usize) -> (r: (usize, usize))
        requires
            self.factor >= 1,
            end + self.half <= usize::MAX,
        ensures
            ({
                let lo = up(
                    if start > self.half {
                        start - self.half
                    } else {
                        0
                    },
                    self.factor as int,
                );
                let top = (if end + self.half >= 1 {
                    end + self.half - 1
                } else {
                    0
                }) / (self.factor as int) + 1;
                let hi = if top < out_len {
                    top
                } else {
                    out_len as int
                };
                &&& r.1 == hi
                &&& r.0 == if lo < hi {
                    lo
                } else {
                    hi
                }
            }),
            r.0 <= r.1 <= out_len,
    {
        let from: usize = if start > self.half {
            start - self.half
        } else {
            0
        };
        let lo: usize = divide_up(from, self.factor);
        let reach: usize = end + self.half;
        let last: usize = if reach >= 1 {
            reach - 1
        } else {
            0
        };
        let row: usize = last / self.factor;
        let hi: usize = if row < out_len {
            row + 1
        } else {
            out_len
        };
        (
            if lo < hi {
                lo
            } else {
                hi
            },
            hi,
        )
    }

    /// The taps that fit, times the samples under them.
    fn edge<R: Reals>(&self, r: &R, residual: &[Single], centre: usize) -> (answer: Single)
        requires
            r.repeatable(),
            self.wf(),
            centre < residual@.len(),
            residual@.len() + 2 * self.half + 1 <= usize::MAX,
        ensures
            answer == edge_to(r, *self, residual@, centre as int, self.taps@.len() as int),
    {
        let mut sum = (Single { bits: 0 });
        let mut j: usize = 0;
        while j < self.taps.len()
            invariant
                r.repeatable(),
                self.wf(),
                centre < residual@.len(),
                residual@.len() + 2 * self.half + 1 <= usize::MAX,
                j <= self.taps@.len(),
                sum == edge_to(r, *self, residual@, centre as int, j as int),
            decreases self.taps@.len() - j,
        {
            if centre + j >= self.half && centre + j - self.half < residual.len() {
                let x = residual[centre + j - self.half];
                sum = r.plus_single(sum, r.times_single(self.taps[j], x));
            }
            j += 1;
        }
        sum
    }

    /// Recompute `out[m]` for `m` in `[lo, hi)` from `residual`, read as zero outside it.
    pub fn update<R: Reals>(
        &self,
        r: &R,
        residual: &[Single],
        out: &mut Vec<Single>,
        lo: usize,
        hi: usize,
    )
        requires
            r.repeatable(),
            self.wf(),
            lo <= hi <= old(out)@.len(),
            old(out)@.len() == up(residual@.len() as int, self.factor as int),
            residual@.len() + 2 * self.half + 1 <= usize::MAX,
        ensures
            final(out)@.len() == old(out)@.len(),
            forall|m: int|
                0 <= m < old(out)@.len() ==> #[trigger] final(out)@[m] == if lo <= m < hi {
                    filtered(r, *self, residual@, m)
                } else {
                    old(out)@[m]
                },
    {
        let ghost before = out@;
        let len: usize = residual.len();
        let mut m: usize = lo;
        while m < hi
            invariant
                r.repeatable(),
                self.wf(),
                len == residual@.len(),
                lo <= m <= hi <= before.len(),
                out@.len() == before.len(),
                before.len() == up(residual@.len() as int, self.factor as int),
                residual@.len() + 2 * self.half + 1 <= usize::MAX,
                forall|k: int|
                    0 <= k < out@.len() ==> #[trigger] out@[k] == if lo <= k < m {
                        filtered(r, *self, residual@, k)
                    } else {
                        before[k]
                    },
            decreases hi - m,
        {
            proof {
                lemma_up(residual@.len() as int, self.factor as int);
                assert(m * self.factor <= (before.len() - 1) * self.factor) by (nonlinear_arith)
                    requires
                        m <= before.len() - 1,
                        self.factor >= 1,
                ;
                assert((before.len() - 1) * self.factor < residual@.len());
            }
            let centre: usize = m * self.factor;
            let y = if centre >= self.half && centre + self.half < len {
                let run = vstd::slice::slice_subrange(
                    residual,
                    centre - self.half,
                    centre + self.half + 1,
                );
                dot(r, self.taps.as_slice(), run)
            } else {
                self.edge(r, residual, centre)
            };
            out.set(m, y);
            m += 1;
        }
    }

    /// The whole decimated residual.
    pub fn apply<R: Reals>(&self, r: &R, residual: &[Single]) -> (answer: Vec<Single>)
        requires
            r.repeatable(),
            self.wf(),
            residual@.len() + 2 * self.half + 1 <= usize::MAX,
        ensures
            answer@ == Seq::new(
                up(residual@.len() as int, self.factor as int) as nat,
                |m: int| filtered(r, *self, residual@, m),
            ),
    {
        let n: usize = self.output_len(residual.len());
        let mut out: Vec<Single> = Vec::new();
        let mut i: usize = 0;
        while i < n
            invariant
                i <= n,
                out@.len() == i,
            decreases n - i,
        {
            out.push(Single { bits: 0 });
            i += 1;
        }
        self.update(r, residual, &mut out, 0, n);
        out
    }
}

/// The taps that fit depend only on the samples under them.
proof fn lemma_edge<R: Reals>(
    r: &R,
    d: Decimator,
    before: Seq<Single>,
    after: Seq<Single>,
    centre: int,
    n: int,
)
    requires
        before.len() == after.len(),
        0 <= n,
        forall|i: int|
            0 <= i < after.len() && centre - d.half <= i < centre - d.half + n
                ==> #[trigger] after[i] == before[i],
    ensures
        edge_to(r, d, before, centre, n) == edge_to(r, d, after, centre, n),
    decreases n,
{
    if n > 0 {
        lemma_edge(r, d, before, after, centre, n - 1);
        let i = centre + n - 1 - d.half;
        if 0 <= i < after.len() {
            assert(after[i] == before[i]);
        }
    }
}

/// Changing residual samples `[start, end)` leaves alone every output outside the affected ones:
/// what the filter of the old residual makes of it is what the filter of the new one does. So
/// recomputing the affected ones is filtering everything again.
pub proof fn law_a_partial_update_is_filtering_everything_again<R: Reals>(
    r: &R,
    d: Decimator,
    before: Seq<Single>,
    after: Seq<Single>,
    start: int,
    end: int,
    m: int,
)
    requires
        d.wf(),
        before.len() == after.len(),
        0 <= start < end <= after.len(),
        forall|i: int|
            0 <= i < after.len() && !(start <= i < end) ==> #[trigger] after[i] == before[i],
        0 <= m < up(after.len() as int, d.factor as int),
        m < up(
            if start > d.half {
                start - d.half
            } else {
                0
            },
            d.factor as int,
        ) || m >= (end + d.half - 1) / (d.factor as int) + 1,
    ensures
        filtered(r, d, before, m) == filtered(r, d, after, m),
{
    let f = d.factor as int;
    let from = if start > d.half {
        start - d.half
    } else {
        0
    };
    if m < up(from, f) {
        lemma_up(from, f);
        assert(m * f <= (up(from, f) - 1) * f) by (nonlinear_arith)
            requires
                m <= up(from, f) - 1,
                f >= 1,
        ;
        assert(m * f + d.half < start);
    } else {
        let q = (end + d.half - 1) / f;
        lemma_fundamental_div_mod(end + d.half - 1, f);
        assert((q + 1) * f == f * q + f) by (nonlinear_arith);
        assert(m * f >= (q + 1) * f) by (nonlinear_arith)
            requires
                m >= q + 1,
                f >= 1,
        ;
        assert(m * f - d.half >= end);
    }
    lemma_up(after.len() as int, f);
    assert(m * f <= (up(after.len() as int, f) - 1) * f) by (nonlinear_arith)
        requires
            m <= up(after.len() as int, f) - 1,
            f >= 1,
    ;
    let centre = m * f;
    if centre >= d.half && centre + d.half < after.len() {
        assert(before.subrange(centre - d.half, centre + d.half + 1) =~= after.subrange(
            centre - d.half,
            centre + d.half + 1,
        ));
    } else {
        lemma_edge(r, d, before, after, centre, d.taps@.len() as int);
    }
}

} // verus!
