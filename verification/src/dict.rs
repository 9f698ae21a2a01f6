//! The block-structured dictionary.
//!
//! A *block* fixes one envelope shape. Its atoms are indexed by frame (onset on a hop grid) and
//! frequency bin. Nothing below this line knows which kind a block holds: it works from the rendered
//! envelope alone.
//!
//! # Hop is set by the envelope, not by the window length
//!
//! Onset capture falls off with a width the envelope sets, so the hop is derived from a capture
//! tolerance by *measuring* the block's own envelope autocorrelation.

use crate::atom::{Envelope, EnvelopeParams, Shape};
use crate::config::released;
use crate::ieee::{Double, Single};
use crate::reals::Reals;
use crate::rounding::{
    close, gives, gives_single, lemma_close_mirrored, lemma_close_sign, lemma_close_through,
    lemma_close_to_itself, lemma_close_undivided, lemma_counts, lemma_divides_out, lemma_in_order,
    lemma_in_proportion, lemma_minus, lemma_mirrored, lemma_over, lemma_over_itself,
    lemma_over_single, lemma_small_numbers, lemma_strictly_in_proportion, lemma_times_single,
    moderate, rounded, rounds, steps, tame,
};
use crate::units::Units;
use vstd::arithmetic::div_mod::{lemma_fundamental_div_mod, lemma_fundamental_div_mod_converse};
use vstd::prelude::*;

verus! {

/// Why an envelope, a block or a dictionary cannot be built.
#[derive(Clone, Copy, Debug)]
pub enum FofError {
    /// The grain renders silent, so it is not a usable atom shape.
    SilentGrain,
    Invalid(&'static str),
}

/// One bin of a real spectrum.
#[derive(Clone, Copy, Debug, PartialEq, Eq, Structural)]
pub struct Bin {
    pub re: Single,
    pub im: Single,
}

/// One frequency bin's Gram, as measured: its coherence, its determinant, its leading entry, and the
/// entries of its inverse.
#[derive(Clone, Copy, Debug, PartialEq, Eq, Structural)]
pub struct GramBin {
    pub rho_sq: Double,
    pub det: Double,
    pub guu: Double,
    pub inv_uu: Single,
    pub inv_uv: Single,
    pub inv_vv: Single,
    pub rho: Single,
}

impl GramBin {
    /// The bin is well enough conditioned to be used.
    pub open spec fn usable(self, rho_sq_max: Double) -> bool {
        self.rho_sq.at_most(rho_sq_max) && self.det.positive() && self.guu.positive()
    }
}

/// One envelope shape, with its precomputed Gram inverse per frequency bin.
#[derive(Clone, Debug)]
pub struct Block {
    pub env: Envelope,
    /// Transform length.
    pub fft_len: usize,
    /// Frame spacing in samples.
    pub hop: usize,
    /// Inclusive bin range this block represents.
    pub k_lo: usize,
    pub k_hi: usize,
    /// The inverse Gram, indexed by `k - k_lo`. Dead bins hold zeros, so they project to zero energy
    /// and can never win.
    pub inv_uu: Vec<Single>,
    pub inv_uv: Vec<Single>,
    pub inv_vv: Vec<Single>,
    /// The coherence of the two basis vectors. Recorded for diagnostics.
    pub rho: Vec<Single>,
}

/// Positive or negative zero.
pub open spec fn is_zero(x: Single) -> bool {
    x.magnitude() == 0
}

fn zero(x: Single) -> (r: bool)
    ensures
        r == is_zero(x),
{
    x.bits == 0 || x.bits == 0x8000_0000
}

/// The bins a block represents. Bin zero and the bin at half the transform length are excluded
/// unconditionally: one of the two basis vectors is identically zero there.
///
/// `first` and `last` are the lowest and highest bins inside the configured frequency range.
pub fn bin_range(first: usize, last: usize, fft_len: usize) -> (r: Result<(usize, usize), FofError>)
    requires
        fft_len >= 2,
    ensures
        ({
            let lo = if first >= 1 {
                first as int
            } else {
                1
            };
            let top = fft_len / 2 - 1;
            let hi = if last <= top {
                last as int
            } else {
                top
            };
            match r {
                Ok((k_lo, k_hi)) => lo <= hi && k_lo == lo && k_hi == hi,
                Err(e) => lo > hi && (e matches FofError::Invalid(why) && why@
                    == "empty frequency range for this block"@),
            }
        }),
{
    let k_lo: usize = if first >= 1 {
        first
    } else {
        1
    };
    let top: usize = fft_len / 2 - 1;
    let k_hi: usize = if last <= top {
        last
    } else {
        top
    };
    if k_lo > k_hi {
        return Err(FofError::Invalid("empty frequency range for this block"));
    }
    Ok((k_lo, k_hi))
}

/// Where frequency index `m` is read in a real spectrum, and whether the value there is the
/// conjugate of the one asked for.
///
/// A real transform returns bins `0 ..= fft_len / 2` alone; the others fold back by conjugate
/// symmetry.
pub fn fold_index(fft_len: usize, m: usize) -> (r: (usize, bool))
    requires
        fft_len >= 1,
    ensures
        r.0 <= fft_len / 2,
        !r.1 ==> r.0 == m % fft_len,
        r.1 ==> r.0 == fft_len - m % fft_len,
        r.1 == (m % fft_len > fft_len / 2),
{
    let m: usize = m % fft_len;
    if m <= fft_len / 2 {
        (m, false)
    } else {
        (fft_len - m, true)
    }
}

/// The real and the negated imaginary part at frequency index `m` of a real spectrum over `fft_len`
/// samples.
pub open spec fn e2_at<R: Reals>(r: &R, spectrum: Seq<Bin>, fft_len: int, m: int) -> (Double, Double) {
    let i = m % fft_len;
    if i <= fft_len / 2 {
        (r.widen_of(spectrum[i].re), r.widen_of(spectrum[i].im.mirrored()))
    } else {
        (r.widen_of(spectrum[fft_len - i].re), r.widen_of(spectrum[fft_len - i].im))
    }
}

/// Read `C` and `S` for frequency index `m` from the real spectrum of the squared envelope.
///
/// The Gram of bin `k` needs the spectrum at `2k`, which a real spectrum holds only up to half its
/// length. The rest fold back by conjugate symmetry, which flips the sign of `S`.
pub fn fold_e2_bin<R: Reals>(r: &R, spectrum: &[Bin], fft_len: usize, m: usize) -> (answer: (
    Double,
    Double,
))
    requires
        r.repeatable(),
        fft_len >= 1,
        spectrum@.len() == fft_len / 2 + 1,
    ensures
        answer == e2_at(r, spectrum@, fft_len as int, m as int),
{
    let (i, conjugate) = fold_index(fft_len, m);
    if conjugate {
        (r.widen(spectrum[i].re), r.widen(spectrum[i].im))
    } else {
        (r.widen(spectrum[i].re), r.widen(spectrum[i].im.negated()))
    }
}

/// Folding back negates `S` and keeps `C`: the spectrum at `fft_len - m` is the conjugate of the one
/// at `m`.
pub proof fn law_the_spectrum_is_conjugate_symmetric<R: Reals>(
    r: &R,
    spectrum: Seq<Bin>,
    fft_len: int,
    m: int,
)
    requires
        fft_len >= 1,
        0 < m < fft_len - m,
    ensures
        e2_at(r, spectrum, fft_len, fft_len - m).0 == e2_at(r, spectrum, fft_len, m).0,
        e2_at(r, spectrum, fft_len, fft_len - m).1 == r.widen_of(spectrum[m].im),
        e2_at(r, spectrum, fft_len, m).1 == r.widen_of(spectrum[m].im.mirrored()),
{
    vstd::arithmetic::div_mod::lemma_small_mod(m as nat, fft_len as nat);
    vstd::arithmetic::div_mod::lemma_small_mod((fft_len - m) as nat, fft_len as nat);
}

/// The Gram of a bin, from the envelope's energy and the squared envelope's spectrum at twice it.
pub open spec fn gram_bin_of<R: Reals>(r: &R, p: Double, c: Double, s: Double) -> GramBin {
    let guu = r.over_of(r.minus_of(p, c), (Double { bits: 0x4000_0000_0000_0000 }));
    let gvv = r.over_of(r.plus_of(p, c), (Double { bits: 0x4000_0000_0000_0000 }));
    let guv = r.over_of(s, (Double { bits: 0x4000_0000_0000_0000 }));
    let det = r.minus_of(r.times_of(guu, gvv), r.times_of(guv, guv));
    let rho_sq = r.over_of(r.plus_of(r.times_of(c, c), r.times_of(s, s)), r.times_of(p, p)).within((Double { bits: 0 }), (Double { bits: 0x3ff0_0000_0000_0000 }));
    GramBin {
        rho_sq,
        det,
        guu,
        inv_uu: r.narrow_of(r.over_of(gvv, det)),
        inv_uv: r.narrow_of(r.over_of(guv.mirrored(), det)),
        inv_vv: r.narrow_of(r.over_of(guu, det)),
        rho: r.root_single_of(r.narrow_of(rho_sq)),
    }
}

/// The Gram of a bin, from the envelope's energy and the squared envelope's spectrum at twice it.
pub fn gram_bin<R: Reals>(r: &R, p: Double, c: Double, s: Double) -> (answer: GramBin)
    requires
        r.repeatable(),
    ensures
        answer == gram_bin_of(r, p, c, s),
{
    let guu = r.over(r.minus(p, c), (Double { bits: 0x4000_0000_0000_0000 }));
    let gvv = r.over(r.plus(p, c), (Double { bits: 0x4000_0000_0000_0000 }));
    let guv = r.over(s, (Double { bits: 0x4000_0000_0000_0000 }));
    let det = r.minus(r.times(guu, gvv), r.times(guv, guv));
    let rho_sq = r.over(r.plus(r.times(c, c), r.times(s, s)), r.times(p, p)).clamp((Double { bits: 0 }), (Double { bits: 0x3ff0_0000_0000_0000 }));
    GramBin {
        rho_sq,
        det,
        guu,
        inv_uu: r.narrow(r.over(gvv, det)),
        inv_uv: r.narrow(r.over(guv.negated(), det)),
        inv_vv: r.narrow(r.over(guu, det)),
        rho: r.root_single(r.narrow(rho_sq)),
    }
}

/// The squared envelope, zero-padded to a transform's length.
pub open spec fn squares<R: Reals>(r: &R, env: Seq<Single>, fft_len: int) -> Seq<Single> {
    Seq::new(
        fft_len as nat,
        |t: int|
            if t < env.len() {
                r.times_single_of(env[t], env[t])
            } else {
                Single { bits: 0 }
            },
    )
}

/// The squared envelope, zero-padded to a transform's length.
fn squared<R: Reals>(r: &R, env: &[Single], fft_len: usize) -> (answer: Vec<Single>)
    requires
        r.repeatable(),
    ensures
        answer@ == squares(r, env@, fft_len as int),
{
    let mut out: Vec<Single> = Vec::new();
    let mut t: usize = 0;
    while t < fft_len
        invariant
            r.repeatable(),
            t <= fft_len,
            out@.len() == t,
            forall|i: int|
                0 <= i < t ==> #[trigger] out@[i] == squares(r, env@, fft_len as int)[i],
        decreases fft_len - t,
    {
        if t < env.len() {
            out.push(r.times_single(env[t], env[t]));
        } else {
            out.push(Single { bits: 0 });
        }
        t += 1;
    }
    out
}

/// A transform takes `input` to the spectrum `s`.
pub open spec fn transformed<T: Fn(Vec<Single>) -> Vec<Bin>>(
    transform: T,
    input: Seq<Single>,
    s: Seq<Bin>,
) -> bool {
    exists|v: Vec<Single>, out: Vec<Bin>|
        v@ == input && out@ == s && #[trigger] call_ensures(transform, (v,), out)
}

/// A transform is defined everywhere, and gives a real spectrum: half the input's length and one.
pub open spec fn real_transform<T: Fn(Vec<Single>) -> Vec<Bin>>(transform: T) -> bool {
    &&& forall|v: Vec<Single>| #[trigger] call_requires(transform, (v,))
    &&& forall|v: Vec<Single>, out: Vec<Bin>| #[trigger]
        call_ensures(transform, (v,), out) ==> out@.len() == v@.len() / 2 + 1
}

/// The lowest and highest bins inside a frequency range.
pub open spec fn bins_inside<R: Reals>(
    r: &R,
    cfg: BlockConfig,
    sample_rate: Single,
    fft_len: usize,
) -> (usize, usize) {
    let bin_hz = r.over_single_of(sample_rate, r.count_single_of(fft_len));
    (
        r.whole_single_of(r.ceil_single_of(r.over_single_of(cfg.f_min, bin_hz))),
        r.whole_single_of(r.floor_single_of(r.over_single_of(cfg.f_max, bin_hz))),
    )
}

/// The bins a block represents: those inside the frequency range, without the first and the last of
/// the transform's.
pub open spec fn bins_for<R: Reals>(
    r: &R,
    cfg: BlockConfig,
    sample_rate: Single,
    fft_len: usize,
) -> (int, int) {
    let (first, last) = bins_inside(r, cfg, sample_rate, fft_len);
    (
        if first >= 1 {
            first as int
        } else {
            1
        },
        if last <= fft_len / 2 - 1 {
            last as int
        } else {
            fft_len / 2 - 1
        },
    )
}

/// The Gram of bin `k` of an envelope whose square has a spectrum.
pub open spec fn gram_at<R: Reals>(r: &R, energy: Double, spectrum: Seq<Bin>, fft_len: int, k: int) -> GramBin {
    let (c, s) = e2_at(r, spectrum, fft_len, 2 * k);
    gram_bin_of(r, energy, c, s)
}

/// `b` is the block of an envelope whose square has a spectrum.
pub open spec fn is_block<R: Reals>(
    b: Block,
    r: &R,
    env: Envelope,
    cfg: BlockConfig,
    spectrum: Seq<Bin>,
) -> bool {
    let max = r.widen_of(cfg.rho_sq_max);
    &&& b.wf()
    &&& b.env == env
    &&& shortest_fast(env.samples@.len() as int, b.fft_len as int)
    &&& b.hop == hop_of(r, env.samples@, b.fft_len as int, cfg.capture_tol)
    &&& (b.k_lo as int, b.k_hi as int) == bins_for(r, cfg, env.sample_rate, b.fft_len)
    &&& forall|i: int|
        #![trigger b.rho@[i]]
        0 <= i < b.bins() ==> {
            let g = gram_at(r, env.energy, spectrum, b.fft_len as int, b.k_lo + i);
            &&& b.rho@[i] == g.rho
            &&& g.usable(max) ==> b.inv_uu@[i] == g.inv_uu && b.inv_uv@[i] == g.inv_uv
                && b.inv_vv@[i] == g.inv_vv
            &&& !g.usable(max) ==> b.inv_uu@[i].bits == 0 && b.inv_uv@[i].bits == 0
                && b.inv_vv@[i].bits == 0
        }
}

/// What building a block of an envelope comes to.
pub open spec fn block_built<R: Reals, T: Fn(Vec<Single>) -> Vec<Bin>>(
    r: &R,
    env: Envelope,
    cfg: BlockConfig,
    transform: T,
    answer: Result<Block, FofError>,
) -> bool {
    let fft_len = fast_len_of(env.samples@.len() as usize);
    let (lo, hi) = bins_for(r, cfg, env.sample_rate, fft_len);
    match answer {
        Ok(b) => lo <= hi && exists|spectrum: Seq<Bin>|
            {
                &&& #[trigger] transformed(transform, squares(r, env.samples@, fft_len as int), spectrum)
                &&& is_block(b, r, env, cfg, spectrum)
            },
        Err(e) => lo > hi && (e matches FofError::Invalid(why) && why@
            == "empty frequency range for this block"@),
    }
}

impl Block {
    pub open spec fn bins(&self) -> int {
        self.k_hi - self.k_lo + 1
    }

    /// A block as [`Block::new`] builds one.
    pub open spec fn wf(&self) -> bool {
        &&& self.hop >= 1
        &&& 1 <= self.k_lo <= self.k_hi < self.fft_len / 2
        &&& self.inv_uu@.len() == self.bins()
        &&& self.inv_uv@.len() == self.bins()
        &&& self.inv_vv@.len() == self.bins()
        &&& self.rho@.len() == self.bins()
    }

    /// Bin `k` is represented and well conditioned.
    pub open spec fn live(&self, k: int) -> bool {
        &&& self.k_lo <= k <= self.k_hi
        &&& !(is_zero(self.inv_uu@[k - self.k_lo]) && is_zero(self.inv_uv@[k - self.k_lo])
            && is_zero(self.inv_vv@[k - self.k_lo]))
    }

    /// Build a block from its rendered envelope.
    ///
    /// One transform of the squared envelope gives the Gram of every bin.
    pub fn new<R: Reals, T: Fn(Vec<Single>) -> Vec<Bin>>(
        r: &R,
        env: Envelope,
        cfg: &BlockConfig,
        transform: &T,
    ) -> (answer: Result<Block, FofError>)
        requires
            r.repeatable(),
            real_transform(*transform),
            env.samples@.len() <= LONGEST_TRANSFORM,
        ensures
            block_built(r, env, *cfg, *transform, answer),
    {
        let fft_len: usize = fast_len(env.samples.len());
        proof {
            lemma_fast_len(env.samples@.len() as usize);
        }
        let hop: usize = measure_hop(r, env.samples.as_slice(), fft_len, cfg.capture_tol);
        let bin_hz = r.over_single(env.sample_rate, r.count_single(fft_len));
        let first: usize = r.whole_single(r.ceil_single(r.over_single(cfg.f_min, bin_hz)));
        let last: usize = r.whole_single(r.floor_single(r.over_single(cfg.f_max, bin_hz)));
        let (k_lo, k_hi) = match bin_range(first, last, fft_len) {
            Ok(range) => range,
            Err(e) => {
                return Err(e);
            },
        };
        let input = squared(r, env.samples.as_slice(), fft_len);
        let spectrum = transform(input);
        assert(transformed(*transform, squares(r, env.samples@, fft_len as int), spectrum@));
        let mut gram: Vec<GramBin> = Vec::new();
        let mut k: usize = k_lo;
        while k <= k_hi
            invariant
                r.repeatable(),
                fft_len <= LONGEST_TRANSFORM,
                1 <= k_lo <= k <= k_hi + 1,
                k_hi < fft_len / 2,
                spectrum@.len() == fft_len / 2 + 1,
                gram@.len() == k - k_lo,
                forall|i: int|
                    0 <= i < gram@.len() ==> #[trigger] gram@[i] == gram_at(
                        r,
                        env.energy,
                        spectrum@,
                        fft_len as int,
                        k_lo + i,
                    ),
            decreases k_hi + 1 - k,
        {
            let (c, s) = fold_e2_bin(r, spectrum.as_slice(), fft_len, 2 * k);
            gram.push(gram_bin(r, env.energy, c, s));
            k += 1;
        }
        let answer = Block::assemble(
            env,
            fft_len,
            hop,
            first,
            last,
            gram.as_slice(),
            r.widen(cfg.rho_sq_max),
        );
        proof {
            if answer is Ok {
                let b = answer->Ok_0;
                assert forall|i: int| #![trigger b.rho@[i]] 0 <= i < b.bins() implies {
                    let g = gram_at(r, env.energy, spectrum@, b.fft_len as int, b.k_lo + i);
                    let max = r.widen_of(cfg.rho_sq_max);
                    &&& b.rho@[i] == g.rho
                    &&& g.usable(max) ==> b.inv_uu@[i] == g.inv_uu && b.inv_uv@[i] == g.inv_uv
                        && b.inv_vv@[i] == g.inv_vv
                    &&& !g.usable(max) ==> b.inv_uu@[i].bits == 0 && b.inv_uv@[i].bits == 0
                        && b.inv_vv@[i].bits == 0
                } by {
                    assert(gram@[i] == gram_at(r, env.energy, spectrum@, fft_len as int, k_lo + i));
                }
                assert(is_block(b, r, env, *cfg, spectrum@));
            }
        }
        answer
    }

    /// Carrier frequency of bin `k`, Hz.
    pub open spec fn hz<R: Reals>(&self, r: &R, k: usize) -> Single {
        r.over_single_of(
            r.times_single_of(r.count_single_of(k), self.env.sample_rate),
            r.count_single_of(self.fft_len),
        )
    }

    /// Carrier frequency of bin `k`, Hz.
    pub fn bin_hz<R: Reals>(&self, r: &R, k: usize) -> (answer: Single)
        requires
            r.repeatable(),
        ensures
            answer == self.hz(r, k),
    {
        r.over_single(
            r.times_single(r.count_single(k), self.env.sample_rate),
            r.count_single(self.fft_len),
        )
    }

    /// A block from its rendered envelope and the Gram of each bin of its range.
    ///
    /// `first` and `last` are the lowest and highest bins inside the configured frequency range, and
    /// `gram` holds the measured Gram of each bin [`bin_range`] gives for them.
    pub fn assemble(
        env: Envelope,
        fft_len: usize,
        hop: usize,
        first: usize,
        last: usize,
        gram: &[GramBin],
        rho_sq_max: Double,
    ) -> (r: Result<Block, FofError>)
        requires
            fft_len >= 2,
            hop >= 1,
            ({
                let lo = if first >= 1 {
                    first as int
                } else {
                    1
                };
                let top = fft_len / 2 - 1;
                let hi = if last <= top {
                    last as int
                } else {
                    top
                };
                lo <= hi ==> gram@.len() == hi - lo + 1
            }),
        ensures
            ({
                let lo = if first >= 1 {
                    first as int
                } else {
                    1
                };
                let top = fft_len / 2 - 1;
                let hi = if last <= top {
                    last as int
                } else {
                    top
                };
                match r {
                    Ok(b) => {
                        &&& lo <= hi
                        &&& b.wf()
                        &&& b.env == env
                        &&& b.fft_len == fft_len
                        &&& b.hop == hop
                        &&& b.k_lo == lo
                        &&& b.k_hi == hi
                        &&& forall|i: int|
                            #![trigger gram@[i]]
                            0 <= i < gram@.len() ==> {
                                &&& b.rho@[i] == gram@[i].rho
                                &&& gram@[i].usable(rho_sq_max) ==> b.inv_uu@[i] == gram@[i].inv_uu
                                    && b.inv_uv@[i] == gram@[i].inv_uv && b.inv_vv@[i]
                                    == gram@[i].inv_vv
                                &&& !gram@[i].usable(rho_sq_max) ==> b.inv_uu@[i].bits == 0
                                    && b.inv_uv@[i].bits == 0 && b.inv_vv@[i].bits == 0
                            }
                    },
                    Err(e) => lo > hi && (e matches FofError::Invalid(why) && why@
                        == "empty frequency range for this block"@),
                }
            }),
    {
        let (k_lo, k_hi) = match bin_range(first, last, fft_len) {
            Ok(range) => range,
            Err(e) => {
                return Err(e);
            },
        };
        let mut inv_uu: Vec<Single> = Vec::new();
        let mut inv_uv: Vec<Single> = Vec::new();
        let mut inv_vv: Vec<Single> = Vec::new();
        let mut rho: Vec<Single> = Vec::new();
        let mut i: usize = 0;
        while i < gram.len()
            invariant
                i <= gram@.len(),
                inv_uu@.len() == i,
                inv_uv@.len() == i,
                inv_vv@.len() == i,
                rho@.len() == i,
                forall|j: int|
                    #![trigger gram@[j]]
                    0 <= j < i ==> {
                        &&& rho@[j] == gram@[j].rho
                        &&& gram@[j].usable(rho_sq_max) ==> inv_uu@[j] == gram@[j].inv_uu
                            && inv_uv@[j] == gram@[j].inv_uv && inv_vv@[j] == gram@[j].inv_vv
                        &&& !gram@[j].usable(rho_sq_max) ==> inv_uu@[j].bits == 0 && inv_uv@[j].bits
                            == 0 && inv_vv@[j].bits == 0
                    },
            decreases gram@.len() - i,
        {
            let g = gram[i];
            if g.rho_sq.le(rho_sq_max) && g.det.is_positive() && g.guu.is_positive() {
                inv_uu.push(g.inv_uu);
                inv_uv.push(g.inv_uv);
                inv_vv.push(g.inv_vv);
            } else {
                inv_uu.push(Single { bits: 0 });
                inv_uv.push(Single { bits: 0 });
                inv_vv.push(Single { bits: 0 });
            }
            rho.push(g.rho);
            i += 1;
        }
        Ok(Block { env, fft_len, hop, k_lo, k_hi, inv_uu, inv_uv, inv_vv, rho })
    }

    pub fn support_len(&self) -> (r: usize)
        ensures
            r == self.env.samples@.len(),
    {
        self.env.support_len()
    }

    pub open spec fn support(&self) -> int {
        self.env.samples@.len() as int
    }

    pub fn sample_rate(&self) -> (r: Single)
        ensures
            r == self.env.sample_rate,
    {
        self.env.sample_rate
    }

    /// Number of frames covering a signal of `n` samples.
    pub fn frame_count(&self, n: usize) -> (r: usize)
        requires
            self.hop >= 1,
        ensures
            r == frames(self.hop as int, n as int),
    {
        if n == 0 {
            0
        } else {
            proof {
                assert((n - 1) / self.hop as int <= n - 1) by (nonlinear_arith)
                    requires
                        n >= 1,
                        self.hop >= 1,
                ;
            }
            (n - 1) / self.hop + 1
        }
    }

    /// Onset of frame `n`, in samples.
    pub fn frame_onset(&self, n: usize) -> (r: usize)
        requires
            n * self.hop <= usize::MAX,
        ensures
            r == n * self.hop,
    {
        n * self.hop
    }

    /// The inverse Gram's entries for bin `k`, or `None` if the bin is disabled.
    pub fn gram_inv(&self, k: usize) -> (r: Option<(Single, Single, Single)>)
        requires
            self.wf(),
        ensures
            r is Some == self.live(k as int),
            r matches Some(g) ==> g == (
                self.inv_uu@[k - self.k_lo],
                self.inv_uv@[k - self.k_lo],
                self.inv_vv@[k - self.k_lo],
            ),
    {
        if k < self.k_lo || k > self.k_hi {
            return None;
        }
        let i: usize = k - self.k_lo;
        if zero(self.inv_uu[i]) && zero(self.inv_uv[i]) && zero(self.inv_vv[i]) {
            return None;
        }
        Some((self.inv_uu[i], self.inv_uv[i], self.inv_vv[i]))
    }

    /// The inverse Gram's three rows over the whole bin range, indexed by `k - k_lo`.
    pub fn gram_rows(&self) -> (r: (&[Single], &[Single], &[Single]))
        ensures
            r.0@ == self.inv_uu@,
            r.1@ == self.inv_uv@,
            r.2@ == self.inv_vv@,
    {
        (self.inv_uu.as_slice(), self.inv_uv.as_slice(), self.inv_vv.as_slice())
    }

    /// The coherence at bin `k`. Near one means the projection is ill-conditioned.
    pub fn rho(&self, k: usize) -> (r: Option<Single>)
        requires
            self.wf(),
        ensures
            r is Some == (self.k_lo <= k <= self.k_hi),
            r matches Some(x) ==> x == self.rho@[k - self.k_lo],
    {
        if k >= self.k_lo && k <= self.k_hi {
            Some(self.rho[k - self.k_lo])
        } else {
            None
        }
    }

    /// The bins that can win, in ascending order.
    pub fn live_bins(&self) -> (r: Vec<usize>)
        requires
            self.wf(),
        ensures
            forall|i: int| 0 <= i < r@.len() ==> self.live(#[trigger] r@[i] as int),
            forall|i: int, j: int| 0 <= i < j < r@.len() ==> r@[i] < r@[j],
            forall|k: usize| #[trigger] self.live(k as int) ==> r@.contains(k),
    {
        let mut out: Vec<usize> = Vec::new();
        let mut k: usize = self.k_lo;
        while k <= self.k_hi
            invariant
                self.wf(),
                self.k_lo <= k <= self.k_hi + 1,
                forall|i: int| 0 <= i < out@.len() ==> self.live(#[trigger] out@[i] as int),
                forall|i: int| 0 <= i < out@.len() ==> #[trigger] out@[i] < k,
                forall|i: int, j: int| 0 <= i < j < out@.len() ==> out@[i] < out@[j],
                forall|x: usize| #[trigger] self.live(x as int) && x < k ==> out@.contains(x),
            decreases self.k_hi + 1 - k,
        {
            let ghost before = out@;
            if self.gram_inv(k).is_some() {
                out.push(k);
            }
            proof {
                assert forall|x: usize| #[trigger] self.live(x as int) && x < k + 1 implies out@.contains(
                    x,
                ) by {
                    if x < k {
                        assert(before.contains(x));
                        let i = choose|i: int| 0 <= i < before.len() && before[i] == x;
                        assert(out@[i] == x);
                    } else {
                        assert(out@[out@.len() - 1] == x);
                    }
                }
            }
            k += 1;
        }
        out
    }
}

/// Frames at spacing `hop` covering `n` samples.
pub open spec fn frames(hop: int, n: int) -> int {
    if n <= 0 {
        0
    } else {
        (n - 1) / hop + 1
    }
}

/// The frames cover the signal and none starts past it: the last frame begins on the signal, and one
/// more would begin at or after its end.
pub proof fn law_frames_cover_the_signal(hop: int, n: int)
    requires
        hop >= 1,
        n >= 1,
    ensures
        frames(hop, n) >= 1,
        (frames(hop, n) - 1) * hop < n,
        frames(hop, n) * hop >= n,
{
    let q = (n - 1) / hop;
    lemma_fundamental_div_mod(n - 1, hop);
    assert(q >= 0) by (nonlinear_arith)
        requires
            q == (n - 1) / hop,
            n >= 1,
            hop >= 1,
    ;
    assert((q + 1) * hop == hop * q + hop) by (nonlinear_arith);
    assert(q * hop == hop * q) by (nonlinear_arith);
}

/// A bin that failed the conditioning test is not live, and one that passed is unless its whole
/// inverse is zero.
pub proof fn law_dead_bins_hold_zeros(b: Block, k: int)
    requires
        b.wf(),
        b.k_lo <= k <= b.k_hi,
        b.inv_uu@[k - b.k_lo].bits == 0,
        b.inv_uv@[k - b.k_lo].bits == 0,
        b.inv_vv@[k - b.k_lo].bits == 0,
    ensures
        !b.live(k),
{
}

// ---------------------------------------------------------------------------------------------
// the hop
// ---------------------------------------------------------------------------------------------

/// The last offset known to do and the first known not to, galloping out in powers of two from `lo`,
/// which does, and `hi`.
pub open spec fn galloped(ok: spec_fn(int) -> bool, len: int, lo: int, hi: int) -> (int, int)
    decreases len - hi,
{
    if 0 < hi < len && ok(hi) {
        if 2 * hi >= len {
            (hi, len)
        } else {
            galloped(ok, len, hi, 2 * hi)
        }
    } else {
        (lo, hi)
    }
}

/// The offset bisection between `lo`, which does, and `hi`, which does not, ends at.
pub open spec fn bisected(ok: spec_fn(int) -> bool, lo: int, hi: int) -> int
    decreases hi - lo,
{
    if hi - lo <= 1 {
        hi
    } else {
        let mid = lo + (hi - lo) / 2;
        if ok(mid) {
            bisected(ok, mid, hi)
        } else {
            bisected(ok, lo, mid)
        }
    }
}

/// The hop of a search: twice the offset it ends at, or one where not even the first will do.
pub open spec fn hop_found(ok: spec_fn(int) -> bool, len: int) -> int {
    if len <= 0 || !ok(0) {
        1
    } else {
        let (lo, hi) = galloped(ok, len, 0, 1);
        2 * bisected(ok, lo, hi)
    }
}

/// The hop a capture tolerance allows an envelope.
pub open spec fn hop_of<R: Reals>(n: &R, env: Seq<Single>, fft_len: int, tol: Double) -> int {
    hop_found(|delta: int| enough(n, env, fft_len, tol, delta), fft_len)
}

proof fn lemma_galloped(ok: spec_fn(int) -> bool, len: int, lo: int, hi: int)
    requires
        0 <= lo < hi <= len,
        ok(lo),
    ensures
        ({
            let (a, b) = galloped(ok, len, lo, hi);
            0 <= a < b <= len && ok(a) && (b == len || !ok(b))
        }),
    decreases len - hi,
{
    if hi < len && ok(hi) && 2 * hi < len {
        lemma_galloped(ok, len, hi, 2 * hi);
    }
}

proof fn lemma_bisected(ok: spec_fn(int) -> bool, len: int, lo: int, hi: int)
    requires
        0 <= lo < hi <= len,
        ok(lo),
        hi == len || !ok(hi),
    ensures
        ({
            let b = bisected(ok, lo, hi);
            0 < b <= len && ok(b - 1) && (b == len || !ok(b))
        }),
    decreases hi - lo,
{
    if hi - lo > 1 {
        let mid = lo + (hi - lo) / 2;
        if ok(mid) {
            lemma_bisected(ok, len, mid, hi);
        } else {
            lemma_bisected(ok, len, lo, mid);
        }
    }
}

/// The first offset, stepping one sample at a time from `delta`, that does not capture enough.
pub open spec fn linear_scan(ok: spec_fn(int) -> bool, fft_len: int, delta: int) -> int
    decreases fft_len - delta,
{
    if delta < fft_len && ok(delta) {
        linear_scan(ok, fft_len, delta + 1)
    } else {
        delta
    }
}

proof fn lemma_linear_scan(ok: spec_fn(int) -> bool, fft_len: int, delta: int, hi: int)
    requires
        0 <= delta <= hi <= fft_len,
        forall|i: int| delta <= i < hi ==> #[trigger] ok(i),
        hi == fft_len || !ok(hi),
    ensures
        linear_scan(ok, fft_len, delta) == hi,
    decreases hi - delta,
{
    if delta < hi {
        assert(ok(delta));
        lemma_linear_scan(ok, fft_len, delta + 1, hi);
    }
}

/// Where capture falls as the offset grows, the gallop and bisection find what stepping one sample at
/// a time finds.
pub proof fn law_hop_search_is_the_linear_scan(ok: spec_fn(int) -> bool, len: int)
    requires
        0 <= len,
        forall|i: int, j: int| 0 <= i <= j < len && #[trigger] ok(j) ==> #[trigger] ok(i),
    ensures
        ({
            let steps = linear_scan(ok, len, 0);
            hop_found(ok, len) == if steps == 0 {
                1
            } else {
                2 * steps
            }
        }),
{
    if len > 0 && ok(0) {
        lemma_galloped(ok, len, 0, 1);
        let (lo, hi) = galloped(ok, len, 0, 1);
        lemma_bisected(ok, len, lo, hi);
        let b = bisected(ok, lo, hi);
        assert forall|i: int| 0 <= i < b implies #[trigger] ok(i) by {
            assert(ok(b - 1));
        }
        lemma_linear_scan(ok, len, 0, b);
    }
}

/// An envelope's value at a sample, and zero past either end.
pub open spec fn sample_at<R: Reals>(n: &R, env: Seq<Single>, t: int) -> Double {
    if 0 <= t < env.len() {
        n.widen_of(env[t])
    } else {
        n.widen_of(Single { bits: 0 })
    }
}

/// Over the first `t` samples of a window: the product of an envelope and itself `delta` later, and
/// the energy of each.
pub open spec fn overlap<R: Reals>(n: &R, env: Seq<Single>, delta: int, t: int) -> (
    Double,
    Double,
    Double,
)
    decreases t,
{
    if t <= 0 {
        (Double { bits: 0 }, Double { bits: 0 }, Double { bits: 0 })
    } else {
        let (dot, ea, eb) = overlap(n, env, delta, t - 1);
        let a = sample_at(n, env, t - 1);
        let b = sample_at(n, env, t - 1 - delta);
        (
            n.plus_of(dot, n.times_of(a, b)),
            n.plus_of(ea, n.times_of(a, a)),
            n.plus_of(eb, n.times_of(b, b)),
        )
    }
}

/// Fraction of an atom's energy recoverable by a frame anchored `delta` samples before it.
pub open spec fn captured<R: Reals>(n: &R, env: Seq<Single>, delta: int, fft_len: int) -> Double {
    let (dot, ea, eb) = overlap(n, env, delta, fft_len);
    if ea.at_most(Double { bits: 0 }) || eb.at_most(Double { bits: 0 }) {
        Double { bits: 0 }
    } else {
        n.over_of(n.times_of(dot, dot), n.times_of(ea, eb))
    }
}

/// Fraction of an atom's energy recoverable by a frame anchored `delta` samples before it.
///
/// Only the envelope matters: the carrier phase is a free parameter and is absorbed by the
/// projection, so a carrier shift costs nothing. This is the squared normalized correlation of the
/// envelope against itself shifted by `delta`, over the frame window.
pub fn envelope_capture<R: Reals>(n: &R, env: &[Single], delta: usize, fft_len: usize) -> (r:
    Double)
    requires
        n.repeatable(),
    ensures
        r == captured(n, env@, delta as int, fft_len as int),
{
    let mut dot = Double { bits: 0 };
    let mut ea = Double { bits: 0 };
    let mut eb = Double { bits: 0 };
    let mut t: usize = 0;
    while t < fft_len
        invariant
            n.repeatable(),
            t <= fft_len,
            (dot, ea, eb) == overlap(n, env@, delta as int, t as int),
        decreases fft_len - t,
    {
        let a = n.widen(
            if t < env.len() {
                env[t]
            } else {
                Single { bits: 0 }
            },
        );
        let b = n.widen(
            if t >= delta && t - delta < env.len() {
                env[t - delta]
            } else {
                Single { bits: 0 }
            },
        );
        dot = n.plus(dot, n.times(a, b));
        ea = n.plus(ea, n.times(a, a));
        eb = n.plus(eb, n.times(b, b));
        t += 1;
    }
    if ea.le(Double { bits: 0 }) || eb.le(Double { bits: 0 }) {
        return Double { bits: 0 };
    }
    n.over(n.times(dot, dot), n.times(ea, eb))
}

/// A frame `delta + 1` samples early still captures enough.
pub open spec fn enough<R: Reals>(
    n: &R,
    env: Seq<Single>,
    fft_len: int,
    tol: Double,
    delta: int,
) -> bool {
    tol.at_most(captured(n, env, delta + 1, fft_len))
}

/// Largest onset offset still capturing enough of an atom's energy, doubled.
///
/// Frames sit on a grid of spacing `hop`, so a true onset is at most half a hop from the nearest one.
/// Capture falls as the offset grows, so the crossing is found by galloping out in powers of two and
/// bisecting rather than stepping one sample at a time; see [`law_hop_search_is_the_linear_scan`].
pub fn measure_hop<R: Reals>(n: &R, env: &[Single], fft_len: usize, tol: Double) -> (r: usize)
    requires
        n.repeatable(),
        fft_len <= usize::MAX / 2,
    ensures
        r == hop_of(n, env@, fft_len as int, tol),
        r >= 1,
{
    let ghost ok = |delta: int| enough(n, env@, fft_len as int, tol, delta);
    let ghost len = fft_len as int;
    if fft_len == 0 || !tol.le(envelope_capture(n, env, 1, fft_len)) {
        assert(fft_len > 0 ==> !ok(0));
        return 1;
    }
    assert(ok(0));
    let mut lo: usize = 0;
    let mut hi: usize = 1;
    while hi < fft_len && tol.le(envelope_capture(n, env, hi + 1, fft_len))
        invariant_except_break
            0 <= lo < hi <= fft_len,
            ok(lo as int),
            galloped(ok, len, 0, 1) == galloped(ok, len, lo as int, hi as int),
        invariant
            n.repeatable(),
            fft_len <= usize::MAX / 2,
            len == fft_len,
            ok == (|delta: int| enough(n, env@, fft_len as int, tol, delta)),
        ensures
            galloped(ok, len, 0, 1) == (lo as int, hi as int),
            lo < hi <= fft_len,
        decreases fft_len - hi,
    {
        assert(ok(hi as int));
        lo = hi;
        hi = hi * 2;
        if hi >= fft_len {
            hi = fft_len;
            break;
        }
    }
    while hi - lo > 1
        invariant
            n.repeatable(),
            lo < hi <= fft_len <= usize::MAX / 2,
            len == fft_len,
            ok == (|delta: int| enough(n, env@, fft_len as int, tol, delta)),
            galloped(ok, len, 0, 1).0 <= lo,
            bisected(ok, galloped(ok, len, 0, 1).0, galloped(ok, len, 0, 1).1) == bisected(
                ok,
                lo as int,
                hi as int,
            ),
        decreases hi - lo,
    {
        let mid: usize = lo + (hi - lo) / 2;
        if tol.le(envelope_capture(n, env, mid + 1, fft_len)) {
            assert(ok(mid as int));
            lo = mid;
        } else {
            assert(!ok(mid as int));
            hi = mid;
        }
    }
    2 * hi
}

// ---------------------------------------------------------------------------------------------
// the voice grid
// ---------------------------------------------------------------------------------------------

/// Decay rates for voice.
pub open spec fn voice_alphas() -> Seq<Single> {
    seq![
        Single { bits: 0x42a0_0000 },
        Single { bits: 0x4300_0000 },
        Single { bits: 0x434d_0000 },
        Single { bits: 0x43a4_0000 },
        Single { bits: 0x4403_0000 },
        Single { bits: 0x4451_c000 },
        Single { bits: 0x44a7_c000 },
        Single { bits: 0x4506_3000 },
    ]
}

/// Attack durations for voice.
pub open spec fn voice_betas() -> Seq<Single> {
    seq![
        Single { bits: 0x399d_4952 },
        Single { bits: 0x3a83_126f },
        Single { bits: 0x3b44_9ba6 },
    ]
}

/// The `(alpha, beta)` pairs of a dictionary for voice, every decay rate with every attack.
pub fn voice_grid() -> (r: Vec<(Single, Single)>)
    ensures
        r@.len() == 24,
        forall|i: int|
            0 <= i < 24 ==> #[trigger] r@[i] == (voice_alphas()[i / 3], voice_betas()[i % 3]),
{
    let alphas: [Single; 8] = [
        Single { bits: 0x42a0_0000 },
        Single { bits: 0x4300_0000 },
        Single { bits: 0x434d_0000 },
        Single { bits: 0x43a4_0000 },
        Single { bits: 0x4403_0000 },
        Single { bits: 0x4451_c000 },
        Single { bits: 0x44a7_c000 },
        Single { bits: 0x4506_3000 },
    ];
    let betas: [Single; 3] = [
        Single { bits: 0x399d_4952 },
        Single { bits: 0x3a83_126f },
        Single { bits: 0x3b44_9ba6 },
    ];
    assert(alphas@ =~= voice_alphas());
    assert(betas@ =~= voice_betas());
    let mut out: Vec<(Single, Single)> = Vec::new();
    let mut i: usize = 0;
    while i < 24
        invariant
            i <= 24,
            alphas@ == voice_alphas(),
            betas@ == voice_betas(),
            out@.len() == i,
            forall|j: int|
                0 <= j < i ==> #[trigger] out@[j] == (voice_alphas()[j / 3], voice_betas()[j % 3]),
        decreases 24 - i,
    {
        out.push((alphas[i / 3], betas[i % 3]));
        i += 1;
    }
    out
}

// ---------------------------------------------------------------------------------------------
// the dictionary
// ---------------------------------------------------------------------------------------------

/// A set of blocks, one per envelope shape, of any mix of kinds.
#[derive(Clone, Debug)]
pub struct Dictionary {
    pub blocks: Vec<Block>,
    pub sample_rate: Single,
}

/// The blocks among the first `n` attempts, in order.
pub open spec fn built_blocks(built: Seq<Result<Block, FofError>>, n: int) -> Seq<Block>
    decreases n,
{
    if n <= 0 {
        Seq::empty()
    } else {
        match built[n - 1] {
            Ok(b) => built_blocks(built, n - 1).push(b),
            Err(_) => built_blocks(built, n - 1),
        }
    }
}

/// The attempt failed for another reason than a silent grain.
pub open spec fn failed(attempt: Result<Block, FofError>) -> bool {
    attempt matches Err(FofError::Invalid(_))
}

/// What a list of attempts at blocks comes to.
pub open spec fn is_dictionary(
    built: Seq<Result<Block, FofError>>,
    sample_rate: Single,
    r: Result<Dictionary, FofError>,
) -> bool {
    match r {
        Ok(d) => {
            &&& forall|i: int| 0 <= i < built.len() ==> !failed(#[trigger] built[i])
            &&& d.blocks@ == built_blocks(built, built.len() as int)
            &&& d.blocks@.len() > 0
            &&& d.sample_rate == sample_rate
        },
        Err(e) => if exists|i: int| 0 <= i < built.len() && failed(#[trigger] built[i]) {
            exists|i: int|
                0 <= i < built.len() && #[trigger] built[i] == Err::<Block, FofError>(e) && failed(
                    built[i],
                ) && forall|j: int| 0 <= j < i ==> !failed(#[trigger] built[j])
        } else {
            built_blocks(built, built.len() as int).len() == 0 && (e matches FofError::Invalid(why)
                && why@ == "dictionary has no usable blocks"@)
        },
    }
}

/// What one shape's block comes to, its envelope rendered and the block built on it.
pub open spec fn shape_built<
    R: Reals,
    E: Fn(Shape, Single) -> Result<Envelope, FofError>,
    T: Fn(Vec<Single>) -> Vec<Bin>,
>(
    r: &R,
    shape: Shape,
    sample_rate: Single,
    cfg: BlockConfig,
    render: E,
    transform: T,
    answer: Result<Block, FofError>,
) -> bool {
    exists|env: Result<Envelope, FofError>|
        {
            &&& #[trigger] call_ensures(render, (shape, sample_rate), env)
            &&& match env {
                Ok(env) => block_built(r, env, cfg, transform, answer),
                Err(e) => answer == Err::<Block, FofError>(e),
            }
        }
}

/// Rendering is defined everywhere, and gives envelopes a transform can be had for.
pub open spec fn renders<E: Fn(Shape, Single) -> Result<Envelope, FofError>>(render: E) -> bool {
    &&& forall|shape: Shape, sample_rate: Single| #[trigger]
        call_requires(render, (shape, sample_rate))
    &&& forall|shape: Shape, sample_rate: Single, env: Result<Envelope, FofError>| #[trigger]
        call_ensures(render, (shape, sample_rate), env) ==> (env matches Ok(env)
            ==> env.samples@.len() <= LONGEST_TRANSFORM)
}

/// The bits of the largest product of decay rate and attack a voice's grid holds, four.
pub const FOUR: u32 = 0x4080_0000;

/// Of the first `n` pairs of a voice's grid, those whose product is small enough.
pub open spec fn conditioned<R: Reals>(r: &R, n: int) -> Seq<(Single, Single)>
    decreases n,
{
    if n <= 0 {
        Seq::empty()
    } else {
        let pair = (voice_alphas()[(n - 1) / 3], voice_betas()[(n - 1) % 3]);
        if r.times_single_of(pair.0, pair.1).at_most(Single { bits: FOUR }) {
            conditioned(r, n - 1).push(pair)
        } else {
            conditioned(r, n - 1)
        }
    }
}

/// The shapes of some `(alpha, beta)` pairs under a release policy.
pub open spec fn grid_shapes<U: Units>(
    u: &U,
    grid: Seq<(Single, Single)>,
    release: ReleasePolicy,
) -> Seq<Shape> {
    Seq::new(grid.len(), |i: int| released(u, grid[i], release))
}

/// What building a dictionary of some shapes comes to.
pub open spec fn dictionary_built<
    R: Reals,
    E: Fn(Shape, Single) -> Result<Envelope, FofError>,
    T: Fn(Vec<Single>) -> Vec<Bin>,
>(
    r: &R,
    shapes: Seq<Shape>,
    sample_rate: Single,
    cfg: BlockConfig,
    render: E,
    transform: T,
    answer: Result<Dictionary, FofError>,
) -> bool {
    match release_refusal(cfg.release) {
        Some(told) => answer matches Err(FofError::Invalid(why)) && why@ == told,
        None => exists|built: Seq<Result<Block, FofError>>|
            {
                &&& built.len() == shapes.len()
                &&& forall|i: int|
                    0 <= i < built.len() ==> shape_built(
                        r,
                        shapes[i],
                        sample_rate,
                        cfg,
                        render,
                        transform,
                        #[trigger] built[i],
                    )
                &&& #[trigger] is_dictionary(built, sample_rate, answer)
            },
    }
}

/// A block was built of one of the attempts.
pub proof fn lemma_built_block(built: Seq<Result<Block, FofError>>, n: int, i: int)
    requires
        0 <= n <= built.len(),
        0 <= i < built_blocks(built, n).len(),
    ensures
        exists|j: int|
            0 <= j < n && #[trigger] built[j] == Ok::<Block, FofError>(built_blocks(built, n)[i]),
    decreases n,
{
    if n > 0 {
        let before = built_blocks(built, n - 1);
        if i < before.len() {
            lemma_built_block(built, n - 1, i);
            let j = choose|j: int|
                0 <= j < n - 1 && #[trigger] built[j] == Ok::<Block, FofError>(before[i]);
            assert(built[j] == Ok::<Block, FofError>(built_blocks(built, n)[i]));
        } else {
            assert(built[n - 1] == Ok::<Block, FofError>(built_blocks(built, n)[i]));
        }
    }
}

impl Dictionary {
    /// One block per shape, in the order given, leaving out shapes that render silent.
    ///
    /// The release policy is refused before anything is rendered.
    pub fn from_shapes<
        R: Reals,
        E: Fn(Shape, Single) -> Result<Envelope, FofError>,
        T: Fn(Vec<Single>) -> Vec<Bin>,
    >(
        r: &R,
        shapes: &[Shape],
        sample_rate: Single,
        cfg: &BlockConfig,
        render: &E,
        transform: &T,
    ) -> (answer: Result<Dictionary, FofError>)
        requires
            r.repeatable(),
            renders(*render),
            real_transform(*transform),
        ensures
            dictionary_built(r, shapes@, sample_rate, *cfg, *render, *transform, answer),
    {
        if let Err(e) = cfg.release.validate() {
            return Err(e);
        }
        let mut built: Vec<Result<Block, FofError>> = Vec::new();
        let mut i: usize = 0;
        while i < shapes.len()
            invariant
                r.repeatable(),
                renders(*render),
                real_transform(*transform),
                i <= shapes@.len(),
                built@.len() == i,
                forall|j: int|
                    0 <= j < i ==> shape_built(
                        r,
                        shapes@[j],
                        sample_rate,
                        *cfg,
                        *render,
                        *transform,
                        #[trigger] built@[j],
                    ),
            decreases shapes@.len() - i,
        {
            let env = render(shapes[i], sample_rate);
            let ghost drawn = env;
            let attempt = match env {
                Ok(env) => Block::new(r, env, cfg, transform),
                Err(e) => Err(e),
            };
            proof {
                assert(call_ensures(*render, (shapes@[i as int], sample_rate), drawn));
                assert(shape_built(
                    r,
                    shapes@[i as int],
                    sample_rate,
                    *cfg,
                    *render,
                    *transform,
                    attempt,
                ));
            }
            built.push(attempt);
            i += 1;
        }
        let ghost all = built@;
        let answer = Dictionary::gather(built, sample_rate);
        assert(is_dictionary(all, sample_rate, answer));
        answer
    }

    /// One block per `(alpha, beta)` pair under the release policy.
    pub fn from_grid<
        R: Reals,
        U: Units,
        E: Fn(Shape, Single) -> Result<Envelope, FofError>,
        T: Fn(Vec<Single>) -> Vec<Bin>,
    >(
        r: &R,
        u: &U,
        grid: &[(Single, Single)],
        sample_rate: Single,
        cfg: &BlockConfig,
        render: &E,
        transform: &T,
    ) -> (answer: Result<Dictionary, FofError>)
        requires
            r.repeatable(),
            u.repeatable(),
            renders(*render),
            real_transform(*transform),
        ensures
            dictionary_built(
                r,
                grid_shapes(u, grid@, cfg.release),
                sample_rate,
                *cfg,
                *render,
                *transform,
                answer,
            ),
    {
        let mut shapes: Vec<Shape> = Vec::new();
        let mut i: usize = 0;
        while i < grid.len()
            invariant
                u.repeatable(),
                i <= grid@.len(),
                shapes@ == grid_shapes(u, grid@, cfg.release).take(i as int),
            decreases grid@.len() - i,
        {
            let (alpha, beta) = grid[i];
            let shape = Shape::Fof(
                EnvelopeParams {
                    alpha,
                    beta,
                    fade_level: cfg.release.fade_level,
                    fade_dur: u.release(alpha, cfg.release),
                },
            );
            shapes.push(shape);
            proof {
                let all = grid_shapes(u, grid@, cfg.release);
                assert(all.take(i + 1) =~= all.take(i as int).push(all[i as int]));
            }
            i += 1;
        }
        proof {
            let all = grid_shapes(u, grid@, cfg.release);
            assert(all.take(all.len() as int) =~= all);
        }
        Dictionary::from_shapes(r, shapes.as_slice(), sample_rate, cfg, render, transform)
    }

    /// The default grid for voice: decay rates in a ladder over a voice's bandwidths, three attack
    /// durations, and no pair whose product is too large to condition well.
    pub fn voice<
        R: Reals,
        U: Units,
        E: Fn(Shape, Single) -> Result<Envelope, FofError>,
        T: Fn(Vec<Single>) -> Vec<Bin>,
    >(
        r: &R,
        u: &U,
        sample_rate: Single,
        cfg: &BlockConfig,
        render: &E,
        transform: &T,
    ) -> (answer: Result<Dictionary, FofError>)
        requires
            r.repeatable(),
            u.repeatable(),
            renders(*render),
            real_transform(*transform),
        ensures
            dictionary_built(
                r,
                grid_shapes(u, conditioned(r, 24), cfg.release),
                sample_rate,
                *cfg,
                *render,
                *transform,
                answer,
            ),
    {
        let pairs = voice_grid();
        let mut grid: Vec<(Single, Single)> = Vec::new();
        let mut i: usize = 0;
        while i < pairs.len()
            invariant
                r.repeatable(),
                i <= pairs@.len(),
                pairs@.len() == 24,
                forall|j: int|
                    0 <= j < 24 ==> #[trigger] pairs@[j] == (
                        voice_alphas()[j / 3],
                        voice_betas()[j % 3],
                    ),
                grid@ == conditioned(r, i as int),
            decreases pairs@.len() - i,
        {
            let (alpha, beta) = pairs[i];
            if r.times_single(alpha, beta).le(Single { bits: FOUR }) {
                grid.push((alpha, beta));
            }
            i += 1;
        }
        Dictionary::from_grid(r, u, grid.as_slice(), sample_rate, cfg, render, transform)
    }

    /// Attempts at blocks, in the order given, leaving out shapes that render silent.
    ///
    /// The order is the block index a book records and the tie-break selection uses. Any other
    /// failure is the dictionary's: the first one is returned.
    pub fn gather(built: Vec<Result<Block, FofError>>, sample_rate: Single) -> (r: Result<
        Dictionary,
        FofError,
    >)
        ensures
            is_dictionary(built@, sample_rate, r),
    {
        let ghost all = built@;
        let mut blocks: Vec<Block> = Vec::new();
        let mut rest = built;
        let n: usize = rest.len();
        let mut i: usize = 0;
        while i < n
            invariant
                i <= n,
                n == all.len(),
                all == built@,
                rest@ == all.skip(i as int),
                blocks@ == built_blocks(all, i as int),
                forall|j: int| 0 <= j < i ==> !failed(#[trigger] all[j]),
            decreases n - i,
        {
            let attempt = rest.remove(0);
            proof {
                assert(attempt == all[i as int]);
                assert(rest@ =~= all.skip(i + 1));
            }
            match attempt {
                Ok(b) => {
                    blocks.push(b);
                },
                Err(FofError::SilentGrain) => {},
                Err(FofError::Invalid(why)) => {
                    proof {
                        assert(failed(built@[i as int]));
                        assert(built@[i as int] == Err::<Block, FofError>(FofError::Invalid(why)));
                    }
                    return Err(FofError::Invalid(why));
                },
            }
            i += 1;
        }
        if blocks.len() == 0 {
            return Err(FofError::Invalid("dictionary has no usable blocks"));
        }
        Ok(Dictionary { blocks, sample_rate })
    }
}

/// The `(alpha, beta)` pairs of a FOF grid, `alpha` before `beta`, whose product is within the cap.
///
/// `product[i * betas.len() + j]` is the product of `alphas[i]` and `betas[j]`.
pub fn fof_grid(alphas: &[Single], betas: &[Single], product: &[Single], cap: Single) -> (r: Vec<
    (Single, Single),
>)
    requires
        product@.len() == alphas@.len() * betas@.len(),
    ensures
        r@ == grid_pairs(alphas@, betas@, product@, cap, product@.len() as int),
{
    let mut out: Vec<(Single, Single)> = Vec::new();
    let mut p: usize = 0;
    let mut i: usize = 0;
    while i < alphas.len()
        invariant
            i <= alphas@.len(),
            p == i * betas@.len(),
            product@.len() == alphas@.len() * betas@.len(),
            out@ == grid_pairs(alphas@, betas@, product@, cap, p as int),
        decreases alphas@.len() - i,
    {
        let mut j: usize = 0;
        proof {
            assert((i + 1) * betas@.len() <= alphas@.len() * betas@.len()) by (nonlinear_arith)
                requires
                    i + 1 <= alphas@.len(),
            ;
            assert((i + 1) * betas@.len() == i * betas@.len() + betas@.len()) by (nonlinear_arith);
        }
        while j < betas.len()
            invariant
                j <= betas@.len(),
                i < alphas@.len(),
                p == i * betas@.len() + j,
                product@.len() == alphas@.len() * betas@.len(),
                i * betas@.len() + betas@.len() <= product@.len(),
                out@ == grid_pairs(alphas@, betas@, product@, cap, p as int),
            decreases betas@.len() - j,
        {
            proof {
                lemma_fundamental_div_mod_converse(
                    p as int,
                    betas@.len() as int,
                    i as int,
                    j as int,
                );
            }
            if product[p].le(cap) {
                out.push((alphas[i], betas[j]));
            }
            p += 1;
            j += 1;
        }
        i += 1;
    }
    out
}

/// The pairs among the first `n` of the grid whose product is within the cap.
pub open spec fn grid_pairs(
    alphas: Seq<Single>,
    betas: Seq<Single>,
    product: Seq<Single>,
    cap: Single,
    n: int,
) -> Seq<(Single, Single)>
    decreases n,
{
    if n <= 0 {
        Seq::empty()
    } else {
        let p = n - 1;
        let rest = grid_pairs(alphas, betas, product, cap, n - 1);
        if product[p].at_most(cap) {
            rest.push((alphas[p / betas.len() as int], betas[p % betas.len() as int]))
        } else {
            rest
        }
    }
}

/// How a FOF's release follows from its decay rate: `fade_dur_scale / alpha`, between the bounds.
#[derive(Clone, Copy, Debug, PartialEq, Eq, Structural)]
pub struct ReleasePolicy {
    /// Amplitude relative to the peak at which the release begins.
    pub fade_level: Single,
    pub fade_dur_scale: Single,
    /// Bounds on the release's duration, seconds.
    pub fade_dur_min: Single,
    pub fade_dur_max: Single,
}

/// Why a release policy cannot be used, if it cannot.
pub open spec fn release_refusal(p: ReleasePolicy) -> Option<Seq<char>> {
    if !(p.fade_level.above_zero() && p.fade_level.less(Single { bits: 0x3f80_0000 })) {
        Some("fade_level must be in (0, 1)"@)
    } else if !(p.fade_dur_scale.above_zero() && p.fade_dur_scale.finite()) {
        Some("fade_dur_scale must be > 0 and finite"@)
    } else if !(p.fade_dur_min.above_zero() && p.fade_dur_min.at_most(p.fade_dur_max)
        && p.fade_dur_max.finite()) {
        Some("release bounds need 0 < fade_dur_min <= fade_dur_max"@)
    } else {
        None
    }
}

impl ReleasePolicy {
    pub fn validate(&self) -> (r: Result<(), FofError>)
        ensures
            match r {
                Ok(_) => release_refusal(*self) is None,
                Err(FofError::Invalid(why)) => release_refusal(*self) == Some(why@),
                Err(FofError::SilentGrain) => false,
            },
    {
        if !(self.fade_level.is_above_zero() && self.fade_level.lt(Single { bits: 0x3f80_0000 })) {
            return Err(FofError::Invalid("fade_level must be in (0, 1)"));
        }
        if !(self.fade_dur_scale.is_above_zero() && self.fade_dur_scale.is_finite()) {
            return Err(FofError::Invalid("fade_dur_scale must be > 0 and finite"));
        }
        if !(self.fade_dur_min.is_above_zero() && self.fade_dur_min.le(self.fade_dur_max)
            && self.fade_dur_max.is_finite()) {
            return Err(FofError::Invalid("release bounds need 0 < fade_dur_min <= fade_dur_max"));
        }
        Ok(())
    }
}

impl FofError {
    /// What the error says.
    pub open spec fn told(self) -> Seq<char> {
        match self {
            FofError::SilentGrain => "the grain renders silent"@,
            FofError::Invalid(why) => why@,
        }
    }

    pub fn message(&self) -> (r: &'static str)
        ensures
            r@ == self.told(),
    {
        match self {
            FofError::SilentGrain => "the grain renders silent",
            FofError::Invalid(why) => why,
        }
    }
}

/// How blocks are built.
#[derive(Clone, Copy, Debug, PartialEq, Eq, Structural)]
pub struct BlockConfig {
    /// Worst-case onset capture fraction the hop must guarantee.
    pub capture_tol: Double,
    /// Lowest carrier frequency the block will represent, Hz.
    pub f_min: Single,
    /// Highest carrier frequency the block will represent, Hz.
    pub f_max: Single,
    /// Bins whose coherence squared is above this are ill-conditioned and disabled.
    pub rho_sq_max: Single,
    /// Fixed for the whole analysis, and shared with resynthesis.
    pub release: ReleasePolicy,
}

/// `n` without its factors of `p`.
pub open spec fn without(n: int, p: int) -> int
    decreases n,
{
    if n > 0 && p > 1 && n % p == 0 {
        proof {
            assert(n / p < n) by (nonlinear_arith)
                requires
                    n > 0,
                    p > 1,
            ;
            assert(n / p >= 0) by (nonlinear_arith)
                requires
                    n > 0,
                    p > 1,
            ;
        }
        without(n / p, p)
    } else {
        n
    }
}

/// A number whose only prime factors are two, three and five.
pub open spec fn smooth(n: int) -> bool {
    n > 0 && without(without(without(n, 2), 3), 5) == 1
}

fn strip(n: usize, p: usize) -> (r: usize)
    requires
        n > 0,
        p > 1,
    ensures
        r == without(n as int, p as int),
        0 < r <= n,
    decreases n,
{
    if n % p == 0 {
        assert(0 < n / p < n) by (nonlinear_arith)
            requires
                n > 0,
                p > 1,
                n % p == 0,
        ;
        strip(n / p, p)
    } else {
        n
    }
}

/// Two to the thirtieth is smooth.
proof fn lemma_power_is_smooth()
    ensures
        smooth(0x4000_0000),
{
    reveal_with_fuel(without, 32);
    assert(without(0x4000_0000, 2) == 1);
}

/// The longest transform [`next_fast_len`] answers for.
pub const LONGEST_TRANSFORM: usize = 0x4000_0000;

/// The shortest even transform length at least `n` whose only prime factors are two, three and five.
pub fn next_fast_len(n: usize) -> (r: usize)
    requires
        n <= LONGEST_TRANSFORM,
    ensures
        n <= r <= LONGEST_TRANSFORM,
        r >= 2,
        r % 2 == 0,
        smooth(r as int),
        forall|k: int| n <= k < r && k >= 2 && k % 2 == 0 ==> !#[trigger] smooth(k),
{
    proof {
        lemma_power_is_smooth();
    }
    let mut len: usize = if n <= 2 {
        2
    } else {
        n + n % 2
    };
    while strip(strip(strip(len, 2), 3), 5) != 1
        invariant
            n <= len <= LONGEST_TRANSFORM,
            len >= 2,
            len % 2 == 0,
            smooth(0x4000_0000),
            forall|k: int| n <= k < len && k >= 2 && k % 2 == 0 ==> !#[trigger] smooth(k),
        decreases LONGEST_TRANSFORM - len,
    {
        assert(!smooth(len as int));
        len += 2;
    }
    len
}

/// `r` is the shortest even length at least `n` whose only prime factors are two, three and five.
pub open spec fn shortest_fast(n: int, r: int) -> bool {
    &&& n <= r
    &&& r >= 2
    &&& r % 2 == 0
    &&& smooth(r)
    &&& forall|k: int| n <= k < r && k >= 2 && k % 2 == 0 ==> !#[trigger] smooth(k)
}

/// The transform length for `n` samples: [`next_fast_len`]'s as far as it answers, `n` past that.
pub open spec fn fast_len_of(n: usize) -> usize {
    if n <= LONGEST_TRANSFORM {
        choose|r: usize| shortest_fast(n as int, r as int)
    } else {
        n
    }
}

/// There is a shortest fast length as far as [`next_fast_len`] answers, and only one.
pub proof fn lemma_fast_len(n: usize)
    requires
        n <= LONGEST_TRANSFORM,
    ensures
        shortest_fast(n as int, fast_len_of(n) as int),
        fast_len_of(n) <= LONGEST_TRANSFORM,
        forall|r: usize| #[trigger] shortest_fast(n as int, r as int) ==> r == fast_len_of(n),
{
    lemma_power_is_smooth();
    lemma_shortest_exists(n as int, LONGEST_TRANSFORM as int);
    let one = choose|r: int| n <= r <= LONGEST_TRANSFORM && shortest_fast(n as int, r);
    assert(shortest_fast(n as int, (one as usize) as int));
    let other = fast_len_of(n);
    assert forall|r: usize| #[trigger] shortest_fast(n as int, r as int) implies r == other by {
        if r < other {
            assert(!smooth(r as int));
        }
        if other < r {
            assert(!smooth(other as int));
        }
    }
    assert(shortest_fast(n as int, other as int));
}

/// Below an even fast length there is a shortest one.
proof fn lemma_shortest_exists(n: int, top: int)
    requires
        0 <= n <= top,
        top >= 2,
        top % 2 == 0,
        smooth(top),
    ensures
        exists|r: int| n <= r <= top && #[trigger] shortest_fast(n, r),
    decreases top - n,
{
    if exists|k: int| n <= k < top && k >= 2 && k % 2 == 0 && #[trigger] smooth(k) {
        let k = choose|k: int| n <= k < top && k >= 2 && k % 2 == 0 && #[trigger] smooth(k);
        lemma_shortest_exists(n, k);
    } else {
        assert(shortest_fast(n, top));
    }
}

/// The transform length for `n` samples.
pub fn fast_len(n: usize) -> (r: usize)
    ensures
        r == fast_len_of(n),
{
    if n <= LONGEST_TRANSFORM {
        let r: usize = next_fast_len(n);
        proof {
            lemma_fast_len(n);
            assert(shortest_fast(n as int, r as int));
        }
        r
    } else {
        n
    }
}

/// Bin `k` of a block is `k / fft_len` of the sample rate its own envelope was rendered at.
pub proof fn law_a_bin_is_its_share_of_the_rate<R: Reals>(r: &R, b: Block, k: usize)
    requires
        rounds(r),
        b.env.sample_rate.finite(),
        1 <= k,
        1 <= b.fft_len,
        0real < b.env.sample_rate.value(),
        tame(k as real * b.env.sample_rate.value()),
        tame(k as real * b.env.sample_rate.value() / b.fft_len as real),
    ensures
        b.hz(r, k).finite(),
        close(
            b.hz(r, k).value(),
            k as real * b.env.sample_rate.value() / b.fft_len as real,
            9,
        ),
{
    let rate = b.env.sample_rate;
    lemma_counts(r, k);
    lemma_counts(r, b.fft_len);
    lemma_close_to_itself(rate.value(), 0);
    let whole = k as real * rate.value();
    lemma_times_single(r, r.count_single_of(k), rate, k as real, rate.value(), 1, 0);
    lemma_over_single(
        r,
        r.times_single_of(r.count_single_of(k), rate),
        r.count_single_of(b.fft_len),
        whole,
        b.fft_len as real,
        4,
        1,
    );
}

/// The bins a block represents are those of its frequency range: none lies outside it, and none inside
/// it is left out, but for the first and the last of the transform's.
pub proof fn law_represented_bins_are_in_range<R: Reals>(
    r: &R,
    cfg: BlockConfig,
    sample_rate: Single,
    fft_len: usize,
    k: int,
)
    requires
        rounds(r),
        steps(r),
        sample_rate.finite() && cfg.f_min.finite() && cfg.f_max.finite(),
        2 <= fft_len,
        0real < sample_rate.value(),
        0real < cfg.f_min.value(),
        0real < cfg.f_max.value(),
        tame(sample_rate.value() / fft_len as real),
        tame(cfg.f_min.value() / (sample_rate.value() / fft_len as real)),
        tame(cfg.f_max.value() / (sample_rate.value() / fft_len as real)),
        cfg.f_min.value() / (sample_rate.value() / fft_len as real) <= 900_000_000real,
        cfg.f_max.value() / (sample_rate.value() / fft_len as real) <= 900_000_000real,
    ensures
        ({
            let (lo, hi) = bins_for(r, cfg, sample_rate, fft_len);
            let hz = k as real * (sample_rate.value() / fft_len as real);
            &&& lo <= k <= hi ==> {
                &&& 999_989real * cfg.f_min.value() <= 1_000_000real * hz
                &&& 1_000_000real * hz <= 1_000_011real * cfg.f_max.value()
            }
            &&& 1 <= k < fft_len / 2 && 1_000_011real * cfg.f_min.value() <= 1_000_000real * hz
                && 1_000_000real * hz <= 999_989real * cfg.f_max.value() ==> lo <= k <= hi
        }),
{
    let (fs, w) = (sample_rate.value(), sample_rate.value() / fft_len as real);
    lemma_counts(r, fft_len);
    lemma_close_to_itself(fs, 0);
    lemma_over_single(r, sample_rate, r.count_single_of(fft_len), fs, fft_len as real, 0, 1);
    let bin = r.over_single_of(sample_rate, r.count_single_of(fft_len));
    let (a, b) = (r.over_single_of(cfg.f_min, bin), r.over_single_of(cfg.f_max, bin));
    let (fa, fb) = (cfg.f_min.value(), cfg.f_max.value());
    lemma_close_to_itself(fa, 0);
    lemma_close_to_itself(fb, 0);
    lemma_over_single(r, cfg.f_min, bin, fa, w, 0, 5);
    lemma_over_single(r, cfg.f_max, bin, fb, w, 0, 5);
    lemma_close_sign(a.value(), fa / w, 9);
    lemma_close_sign(b.value(), fb / w, 9);
    lemma_close_undivided(a.value(), fa, w, 9);
    lemma_close_undivided(b.value(), fb, w, 9);
    assert(1_000_000real - (9 + 1) as real == 999_990real);
    assert(1_000_000real + (9 + 1) as real == 1_000_010real);
    assert(999_990real * fa <= 1_000_000real * (a.value() * w));
    assert(1_000_000real * (a.value() * w) <= 1_000_010real * fa);
    assert(999_990real * fb <= 1_000_000real * (b.value() * w));
    assert(1_000_000real * (b.value() * w) <= 1_000_010real * fb);
    let (lo, hi) = bins_inside(r, cfg, sample_rate, fft_len);
    let x = k as real;
    assert(a.value() <= lo as real && (lo as real) < a.value() + 1real);
    assert(hi as real <= b.value() && b.value() < hi as real + 1real);
    if lo <= k {
        lemma_in_proportion(a.value(), x, w);
    } else {
        lemma_in_proportion(x, lo as real - 1real, w);
        lemma_strictly_in_proportion(lo as real - 1real, a.value(), w);
    }
    if k <= hi {
        lemma_in_proportion(x, b.value(), w);
    } else {
        lemma_in_proportion(hi as real + 1real, x, w);
        lemma_strictly_in_proportion(b.value(), hi as real + 1real, w);
    }
    lemma_on_either_side(fa, a.value() * w, x * w, lo <= k);
    lemma_on_either_side(fb, b.value() * w, x * w, k > hi);
}

/// A frequency on one side of an end's bin is on that side of the end, to eleven parts in a million.
proof fn lemma_on_either_side(f: real, end: real, hz: real, above: bool)
    requires
        0real < f,
        999_990real * f <= 1_000_000real * end,
        1_000_000real * end <= 1_000_010real * f,
        above ==> end <= hz,
        !above ==> hz <= end,
    ensures
        above ==> 999_989real * f < 1_000_000real * hz,
        !above ==> 1_000_000real * hz < 1_000_011real * f,
{
}

/// A frame where an atom starts captures all of it.
pub proof fn law_nothing_is_lost_at_the_onset<R: Reals>(r: &R, env: Seq<Single>, fft_len: int)
    requires
        rounds(r),
        overlap(r, env, 0, fft_len).1.finite(),
        r.times_of(overlap(r, env, 0, fft_len).1, overlap(r, env, 0, fft_len).1).finite(),
        0real < overlap(r, env, 0, fft_len).1.value(),
        0real < r.times_of(
            overlap(r, env, 0, fft_len).1,
            overlap(r, env, 0, fft_len).1,
        ).value(),
    ensures
        captured(r, env, 0, fft_len).finite(),
        close(captured(r, env, 0, fft_len).value(), 1real, 1),
{
    lemma_overlap_with_itself(r, env, fft_len);
    lemma_small_numbers();
    let e = overlap(r, env, 0, fft_len).1;
    lemma_in_order(e, Double { bits: 0 });
    let x = r.times_of(e, e);
    lemma_divides_out(x.value());
    lemma_over_itself(x.value());
    assert(gives(r.over_of(x, x), x.value() / x.value()));
}

proof fn lemma_overlap_with_itself<R: Reals>(r: &R, env: Seq<Single>, t: int)
    ensures
        overlap(r, env, 0, t).0 == overlap(r, env, 0, t).1,
        overlap(r, env, 0, t).2 == overlap(r, env, 0, t).1,
    decreases t,
{
    if t > 0 {
        lemma_overlap_with_itself(r, env, t - 1);
    }
}

/// A bin's Gram is that of a sine and a cosine under the envelope: the halves of its energy less and
/// plus the spectrum of its square, and their coupling; and what is kept is its inverse.
pub proof fn law_a_gram_is_inverted<R: Reals>(r: &R, p: Double, c: Double, s: Double)
    requires
        rounds(r),
        p.finite() && c.finite() && s.finite(),
        moderate(s.value()),
        tame(p.value() - c.value()),
        tame(p.value() + c.value()),
        tame((p.value() - c.value()) / 2real),
        tame((p.value() + c.value()) / 2real),
        gram_bin_of(r, p, c, s).det.finite(),
        0real < gram_bin_of(r, p, c, s).det.value(),
        moderate(s.value() / 2real),
    ensures
        exists|uu: real, vv: real, uv: real|
            {
                let g = gram_bin_of(r, p, c, s);
                let det = g.det.value();
                &&& #[trigger] close(uu, (p.value() - c.value()) / 2real, 5)
                &&& #[trigger] close(vv, (p.value() + c.value()) / 2real, 5)
                &&& #[trigger] close(uv, s.value() / 2real, 1)
                &&& g.guu.value() == uu
                &&& twice_rounded(g.inv_uu, vv / det)
                &&& twice_rounded(g.inv_uv, -uv / det)
                &&& twice_rounded(g.inv_vv, uu / det)
                &&& moderate(uu * vv) && moderate(uv * uv) ==> exists|x: real, y: real| #[trigger]
                    close(x, uu * vv, 1) && #[trigger] close(y, uv * uv, 1) && rounded(det, x - y)
            },
{
    lemma_small_numbers();
    let two = Double { bits: 0x4000_0000_0000_0000 };
    lemma_close_to_itself(2real, 0);
    lemma_minus(r, p, c);
    let (d, u) = (r.minus_of(p, c), r.plus_of(p, c));
    assert(gives(u, p.value() + c.value()));
    lemma_over(r, d, two, p.value() - c.value(), 2real, 1, 0);
    lemma_over(r, u, two, p.value() + c.value(), 2real, 1, 0);
    let (guu, gvv, guv) = (r.over_of(d, two), r.over_of(u, two), r.over_of(s, two));
    assert(gives(guv, s.value() / 2real));
    let (a, b) = (r.times_of(guu, gvv), r.times_of(guv, guv));
    assert(gives(a, guu.value() * gvv.value()));
    assert(gives(b, guv.value() * guv.value()));
    let det = r.minus_of(a, b);
    lemma_mirrored(guv);
    lemma_twice_rounded(r, gvv, det);
    lemma_twice_rounded(r, guv.mirrored(), det);
    lemma_twice_rounded(r, guu, det);
    let (uu, vv, uv) = (guu.value(), gvv.value(), guv.value());
    if moderate(uu * vv) && moderate(uv * uv) {
        assert(gives(det, a.value() - b.value()));
        assert(close(a.value(), uu * vv, 1) && close(b.value(), uv * uv, 1));
    }
    assert(close(uu, (p.value() - c.value()) / 2real, 5));
    assert(close(vv, (p.value() + c.value()) / 2real, 5));
    assert(close(uv, s.value() / 2real, 1));
}

/// A single is a number rounded, and rounded again.
pub open spec fn twice_rounded(x: Single, y: real) -> bool {
    tame(y) || tame(-y) ==> x.finite() && close(x.value(), y, 3)
}

proof fn lemma_twice_rounded<R: Reals>(r: &R, a: Double, b: Double)
    requires
        rounds(r),
        a.finite(),
        b.finite(),
        b.value() != 0real,
    ensures
        twice_rounded(r.narrow_of(r.over_of(a, b)), a.value() / b.value()),
{
    let y = a.value() / b.value();
    if tame(y) || tame(-y) {
        let q = r.over_of(a, b);
        assert(gives(q, y));
        lemma_close_sign(q.value(), y, 1);
        lemma_close_mirrored(q.value(), y, 1);
        lemma_close_sign(-q.value(), -y, 1);
        assert(gives_single(r.narrow_of(q), q.value()));
        lemma_close_through(r.narrow_of(q).value(), q.value(), y, 1, 1);
    }
}

} // verus!
