//! Frame correlation and the closed-form projection.
//!
//! A residual segment is windowed by the block's envelope and transformed; bin `k` then carries both
//! correlations against that bin's carrier. There is nothing to optimize over phase: maximizing over
//! it is projecting onto the whole two-dimensional span.

use crate::atom::AtomParams;
use crate::dict::{real_transform, transformed, Bin, Block};
use crate::ieee::{Double, Single};
use crate::reals::Reals;
use crate::rounding::{
    close, gives, gives_single, lemma_close_looser, lemma_close_product, lemma_close_sign, lemma_close_through,
    lemma_close_to_itself, lemma_mirrored_single, lemma_narrows, lemma_nothing_single, moderate, rounds, takes_hypots, tame,
};
use vstd::prelude::*;

verus! {

/// The best atom in one (frame, bin) cell.
#[derive(Clone, Copy, Debug, PartialEq, Eq, Structural)]
pub struct Projection {
    /// Energy removed by subtracting this atom.
    pub energy: Double,
    /// Linear amplitude.
    pub amp: Single,
    /// Carrier phase in radians.
    pub phi: Single,
}

impl Projection {
    /// What a disabled bin projects to.
    pub open spec fn nothing() -> Projection {
        Projection {
            energy: Double { bits: 0 },
            amp: Single { bits: 0 },
            phi: Single { bits: 0 },
        }
    }

    pub fn zero() -> (r: Projection)
        ensures
            r == Projection::nothing(),
    {
        Projection { energy: Double { bits: 0 }, amp: Single { bits: 0 }, phi: Single { bits: 0 } }
    }
}

/// A bin's inverse Gram.
#[derive(Clone, Copy, Debug, PartialEq, Eq, Structural)]
pub struct Inverse {
    pub uu: Single,
    pub uv: Single,
    pub vv: Single,
}

/// The coefficients of the two basis vectors, and the energy they capture.
#[derive(Clone, Copy, Debug, PartialEq, Eq, Structural)]
pub struct Solution {
    pub z_x: Double,
    pub z_y: Double,
    pub energy: Double,
}

/// The least-squares coefficients of a residual on a bin's two basis vectors.
pub open spec fn solve_of<R: Reals>(r: &R, g: Inverse, d_u: Single, d_v: Single) -> Solution {
    let du = r.widen_of(d_u);
    let dv = r.widen_of(d_v);
    let z_x = r.plus_of(r.times_of(r.widen_of(g.uu), du), r.times_of(r.widen_of(g.uv), dv));
    let z_y = r.plus_of(r.times_of(r.widen_of(g.uv), du), r.times_of(r.widen_of(g.vv), dv));
    Solution { z_x, z_y, energy: r.plus_of(r.times_of(du, z_x), r.times_of(dv, z_y)) }
}

/// The least-squares coefficients of a residual on a bin's two basis vectors.
pub fn solve<R: Reals>(r: &R, g: Inverse, d_u: Single, d_v: Single) -> (answer: Solution)
    requires
        r.repeatable(),
    ensures
        answer == solve_of(r, g, d_u, d_v),
{
    let du = r.widen(d_u);
    let dv = r.widen(d_v);
    let z_x = r.plus(r.times(r.widen(g.uu), du), r.times(r.widen(g.uv), dv));
    let z_y = r.plus(r.times(r.widen(g.uv), du), r.times(r.widen(g.vv), dv));
    Solution { z_x, z_y, energy: r.plus(r.times(du, z_x), r.times(dv, z_y)) }
}

impl Block {
    /// Bin `k`'s inverse Gram.
    pub open spec fn inverse(&self, k: int) -> Inverse {
        Inverse {
            uu: self.inv_uu@[k - self.k_lo],
            uv: self.inv_uv@[k - self.k_lo],
            vv: self.inv_vv@[k - self.k_lo],
        }
    }
}

/// The best atom in one bin: a disabled bin projects to nothing, and a negative energy, which only
/// round-off can bring about, counts as none.
pub open spec fn projected<R: Reals>(r: &R, block: Block, k: int, d_u: Single, d_v: Single) -> Projection {
    if block.live(k) {
        let z = solve_of(r, block.inverse(k), d_u, d_v);
        Projection {
            energy: z.energy.larger(Double { bits: 0 }),
            amp: r.narrow_of(r.hypot_of(z.z_x, z.z_y)),
            phi: r.narrow_of(r.angle_of(z.z_y, z.z_x)),
        }
    } else {
        Projection::nothing()
    }
}

/// Energy captured by the best atom in one bin.
pub fn project_energy<R: Reals>(r: &R, block: &Block, k: usize, d_u: Single, d_v: Single) -> (answer: Double)
    requires
        r.repeatable(),
        block.wf(),
    ensures
        answer == projected(r, *block, k as int, d_u, d_v).energy,
{
    match block.gram_inv(k) {
        Some((uu, uv, vv)) => solve(r, Inverse { uu, uv, vv }, d_u, d_v).energy.max(
            Double { bits: 0 },
        ),
        None => Double { bits: 0 },
    }
}

/// Solve the two-dimensional projection for one bin.
pub fn project<R: Reals>(r: &R, block: &Block, k: usize, d_u: Single, d_v: Single) -> (answer: Projection)
    requires
        r.repeatable(),
        block.wf(),
    ensures
        answer == projected(r, *block, k as int, d_u, d_v),
{
    match block.gram_inv(k) {
        Some((uu, uv, vv)) => {
            let z = solve(r, Inverse { uu, uv, vv }, d_u, d_v);
            Projection {
                energy: z.energy.max(Double { bits: 0 }),
                amp: r.narrow(r.hypot(z.z_x, z.z_y)),
                phi: r.narrow(r.angle(z.z_y, z.z_x)),
            }
        },
        None => Projection::zero(),
    }
}

/// Samples of a frame that lie inside the signal.
pub open spec fn available(signal_len: int, start: int, env_len: int) -> int {
    let left = if signal_len > start {
        signal_len - start
    } else {
        0
    };
    if left < env_len {
        left
    } else {
        env_len
    }
}

/// A frame of `signal` from `start` windowed by an envelope. Past the end of the signal and of the
/// envelope it is zero, so trailing frames need no padding.
pub open spec fn windowed<R: Reals>(
    r: &R,
    signal: Seq<Single>,
    env: Seq<Single>,
    start: int,
    len: int,
) -> Seq<Single> {
    Seq::new(
        len as nat,
        |i: int|
            if i < available(signal.len() as int, start, env.len() as int) {
                r.times_single_of(signal[start + i], env[i])
            } else {
                Single { bits: 0 }
            },
    )
}

/// Window the frame of `signal` starting at `start` by an envelope, into a transform's input.
pub(crate) fn window<R: Reals>(r: &R, signal: &[Single], env: &[Single], start: usize, len: usize) -> (answer: Vec<
    Single,
>)
    requires
        r.repeatable(),
        env@.len() <= len,
    ensures
        answer@ == windowed(r, signal@, env@, start as int, len as int),
{
    let left: usize = if signal.len() > start {
        signal.len() - start
    } else {
        0
    };
    let avail: usize = if left < env.len() {
        left
    } else {
        env.len()
    };
    let mut out: Vec<Single> = Vec::new();
    let mut i: usize = 0;
    while i < len
        invariant
            r.repeatable(),
            i <= len,
            out@.len() == i,
            avail == available(signal@.len() as int, start as int, env@.len() as int),
            avail <= env@.len() <= len,
            avail > 0 ==> start + avail <= signal@.len(),
            forall|k: int|
                0 <= k < i ==> #[trigger] out@[k] == windowed(
                    r,
                    signal@,
                    env@,
                    start as int,
                    len as int,
                )[k],
        decreases len - i,
    {
        if i < avail {
            assert(signal.len() == signal@.len());
            out.push(r.times_single(signal[start + i], env[i]));
        } else {
            out.push(Single { bits: 0 });
        }
        i += 1;
    }
    out
}

/// The winning bin of a scan: the first of the largest energies, if any is above zero.
pub open spec fn is_best(k_lo: int, energies: Seq<Double>, r: Option<int>) -> bool {
    match r {
        Some(k) => {
            &&& k_lo <= k < k_lo + energies.len()
            &&& energies[k - k_lo].positive()
            &&& forall|i: int|
                0 <= i < energies.len() ==> !energies[k - k_lo].less(#[trigger] energies[i])
            &&& forall|i: int|
                0 <= i < k - k_lo ==> (#[trigger] energies[i]).less(energies[k - k_lo])
                    || energies[i].nan()
        },
        None => forall|i: int| 0 <= i < energies.len() ==> !(#[trigger] energies[i]).positive(),
    }
}

/// The winning bin of a scan, and whether anything was captured there.
///
/// The scan compares energies only. The lowest bin wins a tie, and a scan that captures nothing
/// reports the first bin.
pub fn strongest(k_lo: usize, energies: &[Double]) -> (r: (usize, bool))
    requires
        k_lo + energies@.len() <= usize::MAX,
    ensures
        r.1 ==> is_best(k_lo as int, energies@, Some(r.0 as int)),
        !r.1 ==> is_best(k_lo as int, energies@, None) && r.0 == k_lo,
{
    let mut best_i: usize = 0;
    let mut best_e = Double { bits: 0 };
    let mut i: usize = 0;
    while i < energies.len()
        invariant
            i <= energies@.len(),
            best_e.bits != 0 ==> best_i < i && best_e == energies@[best_i as int]
                && best_e.positive(),
            !best_e.nan(),
            best_e.ord() >= 0,
            best_e.bits == 0 ==> forall|j: int|
                0 <= j < i ==> !(#[trigger] energies@[j]).positive(),
            forall|j: int| 0 <= j < i ==> !best_e.less(#[trigger] energies@[j]),
            best_e.bits != 0 ==> forall|j: int|
                0 <= j < best_i ==> (#[trigger] energies@[j]).less(best_e) || energies@[j].nan(),
        decreases energies@.len() - i,
    {
        let e = energies[i];
        if best_e.lt(e) {
            best_e = e;
            best_i = i;
        }
        i += 1;
    }
    if best_e.bits == 0 {
        (k_lo, false)
    } else {
        (k_lo + best_i, true)
    }
}

/// The energy each bin of a block captures, by a frame's spectrum.
pub open spec fn bin_energies<R: Reals>(r: &R, block: Block, spectrum: Seq<Bin>) -> Seq<Double> {
    Seq::new(
        block.bins() as nat,
        |i: int|
            {
                let x = spectrum[block.k_lo + i];
                solve_of(r, block.inverse(block.k_lo + i), x.im.mirrored(), x.re).energy
            },
    )
}

/// The best bin of a frame's spectrum and its projection: the first of those that capture most, or
/// the first bin of all and nothing, where none captures anything.
pub open spec fn is_best_bin<R: Reals>(
    r: &R,
    block: Block,
    spectrum: Seq<Bin>,
    answer: (usize, Projection),
) -> bool {
    let energies = bin_energies(r, block, spectrum);
    if is_best(block.k_lo as int, energies, None) {
        answer == (block.k_lo, Projection::nothing())
    } else {
        let x = spectrum[answer.0 as int];
        &&& is_best(block.k_lo as int, energies, Some(answer.0 as int))
        &&& answer.1 == projected(r, block, answer.0 as int, x.im.mirrored(), x.re)
    }
}

/// Best bin of the frame and its projection. The lowest bin wins a tie, and a frame that
/// captures nothing reports the first bin.
pub fn best_bin_of<R: Reals>(r: &R, block: &Block, spectrum: &[Bin]) -> (answer: (usize, Projection))
    requires
        r.repeatable(),
        block.wf(),
        block.k_hi < spectrum@.len(),
    ensures
        is_best_bin(r, *block, spectrum@, answer),
{
    let n: usize = block.k_hi - block.k_lo + 1;
    let mut energies: Vec<Double> = Vec::new();
    let mut i: usize = 0;
    while i < n
        invariant
            r.repeatable(),
            block.wf(),
            block.k_hi < spectrum@.len(),
            n == block.bins(),
            i <= n,
            energies@.len() == i,
            forall|j: int|
                0 <= j < i ==> #[trigger] energies@[j] == bin_energies(
                    r,
                    *block,
                    spectrum@,
                )[j],
        decreases n - i,
    {
        let x = spectrum[block.k_lo + i];
        let g = Inverse { uu: block.inv_uu[i], uv: block.inv_uv[i], vv: block.inv_vv[i] };
        energies.push(solve(r, g, x.im.negated(), x.re).energy);
        i += 1;
    }
    assert(energies@ =~= bin_energies(r, *block, spectrum@));
    let (k, found) = strongest(block.k_lo, energies.as_slice());
    if found {
        let x = spectrum[k];
        (k, project(r, block, k, x.im.negated(), x.re))
    } else {
        (block.k_lo, Projection::zero())
    }
}

/// A block's transform and the spectrum of the frame it correlated last.
pub struct Correlator<T> {
    pub transform: T,
    pub spectrum: Vec<Bin>,
}

impl<T: Fn(Vec<Single>) -> Vec<Bin>> Correlator<T> {
    /// The spectrum covers a transform of `len` samples.
    pub open spec fn covers(&self, len: int) -> bool {
        &&& real_transform(self.transform)
        &&& self.spectrum@.len() == len / 2 + 1
    }

    /// A correlator over transforms of `len` samples, with nothing correlated yet.
    pub fn new(len: usize, transform: T) -> (answer: Correlator<T>)
        requires
            real_transform(transform),
            len < usize::MAX,
        ensures
            answer.covers(len as int),
            answer.transform == transform,
            answer.spectrum@ == Seq::new(
                (len / 2 + 1) as nat,
                |k: int| Bin { re: Single { bits: 0 }, im: Single { bits: 0 } },
            ),
    {
        let mut spectrum: Vec<Bin> = Vec::new();
        let n: usize = len / 2 + 1;
        while spectrum.len() < n
            invariant
                spectrum@.len() <= n,
                forall|k: int|
                    0 <= k < spectrum@.len() ==> #[trigger] spectrum@[k] == (Bin {
                        re: Single { bits: 0 },
                        im: Single { bits: 0 },
                    }),
            decreases n - spectrum@.len(),
        {
            spectrum.push(Bin { re: Single { bits: 0 }, im: Single { bits: 0 } });
        }
        Correlator { transform, spectrum }
    }

    /// Transform the frame of `signal` at `onset`, windowed by the block's envelope.
    pub fn correlate<R: Reals>(&mut self, r: &R, block: &Block, signal: &[Single], onset: usize)
        requires
            r.repeatable(),
            old(self).covers(block.fft_len as int),
            block.support() <= block.fft_len,
        ensures
            final(self).covers(block.fft_len as int),
            final(self).transform == old(self).transform,
            transformed(
                old(self).transform,
                windowed(r, signal@, block.env.samples@, onset as int, block.fft_len as int),
                final(self).spectrum@,
            ),
    {
        let input = window(r, signal, block.env.samples.as_slice(), onset, block.fft_len);
        self.spectrum = (self.transform)(input);
    }

    /// As [`Correlator::correlate`], reading a residual decimated `decimation` times through an
    /// envelope decimated with it. Bin `k` is the same frequency.
    pub fn correlate_decimated<R: Reals>(
        &mut self,
        r: &R,
        env: &[Single],
        decimation: usize,
        low: &[Single],
        onset: usize,
        len: usize,
    )
        requires
            r.repeatable(),
            decimation >= 1,
            old(self).covers(len as int),
            env@.len() <= len,
        ensures
            final(self).covers(len as int),
            final(self).transform == old(self).transform,
            transformed(
                old(self).transform,
                windowed(r, low@, env@, (onset / decimation) as int, len as int),
                final(self).spectrum@,
            ),
    {
        let input = window(r, low, env, onset / decimation, len);
        self.spectrum = (self.transform)(input);
    }

    /// The correlations of bin `k` with the two basis vectors.
    pub fn at(&self, k: usize) -> (answer: (Single, Single))
        requires
            k < self.spectrum@.len(),
        ensures
            answer == (self.spectrum@[k as int].im.mirrored(), self.spectrum@[k as int].re),
    {
        let x = self.spectrum[k];
        (x.im.negated(), x.re)
    }

    /// Best bin of the frame and its projection.
    pub fn best_bin<R: Reals>(&self, r: &R, block: &Block) -> (answer: (usize, Projection))
        requires
            r.repeatable(),
            block.wf(),
            block.k_hi < self.spectrum@.len(),
        ensures
            is_best_bin(r, *block, self.spectrum@, answer),
    {
        best_bin_of(r, block, self.spectrum.as_slice())
    }
}

/// Turn a selected cell into replayable atom parameters, at the carrier of its bin.
pub fn atom<R: Reals>(r: &R, block: &Block, onset: usize, k: usize, p: Projection) -> (answer: AtomParams)
    requires
        r.repeatable(),
        onset <= i64::MAX,
    ensures
        answer == (AtomParams {
            t0: onset as i64,
            f: block.hz(r, k),
            env: block.env.params,
            phi: p.phi,
            amp: p.amp,
        }),
{
    AtomParams {
        t0: onset as i64,
        f: block.bin_hz(r, k),
        env: block.env.params,
        phi: p.phi,
        amp: p.amp,
    }
}

/// A bin that captures nothing can never win, so a dead bin needs no test of its own.
pub proof fn law_dead_bins_never_win(k_lo: int, energies: Seq<Double>, k: int)
    requires
        0 <= k - k_lo < energies.len(),
        !energies[k - k_lo].positive(),
    ensures
        !is_best(k_lo, energies, Some(k)),
{
}

/// A bin's coefficients are its inverse Gram times the correlations with its two basis vectors, and the
/// energy they capture is what they and the correlations come to.
pub proof fn law_coefficients_solve_the_gram<R: Reals>(r: &R, g: Inverse, d_u: Single, d_v: Single)
    requires
        rounds(r),
        g.uu.finite() && g.uv.finite() && g.vv.finite() && d_u.finite() && d_v.finite(),
        moderate(g.uu.value() * d_u.value()),
        moderate(g.uv.value() * d_v.value()),
        moderate(g.uv.value() * d_u.value()),
        moderate(g.vv.value() * d_v.value()),
    ensures
        exists|a: real, b: real, c: real, d: real|
            {
                let z = solve_of(r, g, d_u, d_v);
                &&& #[trigger] close(a, g.uu.value() * d_u.value(), 1)
                &&& #[trigger] close(b, g.uv.value() * d_v.value(), 1)
                &&& #[trigger] close(c, g.uv.value() * d_u.value(), 1)
                &&& #[trigger] close(d, g.vv.value() * d_v.value(), 1)
                &&& gives(z.z_x, a + b)
                &&& gives(z.z_y, c + d)
                &&& z.z_x.finite() && z.z_y.finite() && moderate(d_u.value() * z.z_x.value())
                    && moderate(d_v.value() * z.z_y.value()) ==> exists|x: real, y: real|
                    #[trigger] close(x, d_u.value() * z.z_x.value(), 1) && #[trigger] close(
                        y,
                        d_v.value() * z.z_y.value(),
                        1,
                    ) && gives(z.energy, x + y)
            },
{
    let (du, dv) = (r.widen_of(d_u), r.widen_of(d_v));
    let (uu, uv, vv) = (r.widen_of(g.uu), r.widen_of(g.uv), r.widen_of(g.vv));
    let (a, b) = (r.times_of(uu, du), r.times_of(uv, dv));
    let (c, d) = (r.times_of(uv, du), r.times_of(vv, dv));
    assert(gives(a, g.uu.value() * d_u.value()) && gives(b, g.uv.value() * d_v.value()));
    assert(gives(c, g.uv.value() * d_u.value()) && gives(d, g.vv.value() * d_v.value()));
    assert(close(a.value(), g.uu.value() * d_u.value(), 1));
    assert(close(b.value(), g.uv.value() * d_v.value(), 1));
    assert(close(c.value(), g.uv.value() * d_u.value(), 1));
    assert(close(d.value(), g.vv.value() * d_v.value(), 1));
    let z = solve_of(r, g, d_u, d_v);
    assert(gives(z.z_x, a.value() + b.value()) && gives(z.z_y, c.value() + d.value()));
    if z.z_x.finite() && z.z_y.finite() && moderate(d_u.value() * z.z_x.value()) && moderate(
        d_v.value() * z.z_y.value(),
    ) {
        let (x, y) = (r.times_of(du, z.z_x), r.times_of(dv, z.z_y));
        assert(gives(x, d_u.value() * z.z_x.value()) && gives(y, d_v.value() * z.z_y.value()));
        assert(close(x.value(), d_u.value() * z.z_x.value(), 1));
        assert(close(y.value(), d_v.value() * z.z_y.value(), 1));
        assert(gives(z.energy, x.value() + y.value()));
    }
}

/// An atom's amplitude is the length of its two coefficients, and its phase their angle.
pub proof fn law_amplitude_is_the_length_of_the_coefficients<R: Reals>(
    r: &R,
    block: Block,
    k: int,
    d_u: Single,
    d_v: Single,
)
    requires
        rounds(r),
        takes_hypots(r),
        block.live(k),
        ({
            let z = solve_of(r, block.inverse(k), d_u, d_v);
            &&& z.z_x.finite()
            &&& z.z_y.finite()
            &&& tame(z.z_x.value() * z.z_x.value() + z.z_y.value() * z.z_y.value())
        }),
    ensures
        ({
            let z = solve_of(r, block.inverse(k), d_u, d_v);
            let p = projected(r, block, k, d_u, d_v);
            &&& p.amp.finite()
            &&& 0real < p.amp.value()
            &&& close(
                p.amp.value() * p.amp.value(),
                z.z_x.value() * z.z_x.value() + z.z_y.value() * z.z_y.value(),
                12,
            )
            &&& p.phi == r.narrow_of(r.angle_of(z.z_y, z.z_x))
        }),
{
    let z = solve_of(r, block.inverse(k), d_u, d_v);
    let h = r.hypot_of(z.z_x, z.z_y);
    let v = h.value();
    lemma_close_to_itself(v, 0);
    lemma_narrows(r, h, v, 0);
    let amp = r.narrow_of(h).value();
    lemma_close_sign(amp, v, 2);
    lemma_close_product(amp, amp, v, v, 2, 2);
    lemma_close_through(
        amp * amp,
        v * v,
        z.z_x.value() * z.z_x.value() + z.z_y.value() * z.z_y.value(),
        5,
        3,
    );
    lemma_close_looser(
        amp * amp,
        z.z_x.value() * z.z_x.value() + z.z_y.value() * z.z_y.value(),
        9,
        12,
    );
}

/// A frame is the signal from its start on, each sample times the envelope's at the same distance from
/// the start, and nothing past the end of either.
pub proof fn law_a_frame_is_the_signal_under_the_envelope<R: Reals>(
    r: &R,
    signal: Seq<Single>,
    env: Seq<Single>,
    start: int,
    len: int,
    i: int,
)
    requires
        rounds(r),
        0 <= start,
        0 <= i < len,
        start + i < signal.len() && i < env.len() ==> signal[start + i].finite() && env[i].finite()
            && moderate(signal[start + i].value() * env[i].value()),
    ensures
        windowed(r, signal, env, start, len).len() == len,
        windowed(r, signal, env, start, len)[i].finite(),
        close(
            windowed(r, signal, env, start, len)[i].value(),
            if start + i < signal.len() && i < env.len() {
                signal[start + i].value() * env[i].value()
            } else {
                0real
            },
            1,
        ),
{
    lemma_nothing_single();
    if start + i < signal.len() && i < env.len() {
        assert(gives_single(
            r.times_single_of(signal[start + i], env[i]),
            signal[start + i].value() * env[i].value(),
        ));
    } else {
        lemma_close_to_itself(0real, 1);
    }
}

/// A bin of a frame's transform, `sum x (cos - i sin)`, holds the frame's correlations with the bin's
/// sine and cosine: the one is its imaginary part turned, the other its real part. They are what the
/// best bin is projected by, and no bin of the block captures more by its own.
pub proof fn law_the_best_bin_is_projected_by_sine_and_cosine<R: Reals>(
    r: &R,
    block: Block,
    spectrum: Seq<Bin>,
    answer: (usize, Projection),
    with_sine: Seq<Single>,
    with_cosine: Seq<Single>,
    j: int,
)
    requires
        is_best_bin(r, block, spectrum, answer),
        answer.1 != Projection::nothing(),
        block.k_hi < spectrum.len(),
        with_sine.len() == spectrum.len() && with_cosine.len() == spectrum.len(),
        forall|k: int|
            0 <= k < spectrum.len() ==> (#[trigger] spectrum[k]).im.finite() && with_sine[k]
                == spectrum[k].im.mirrored() && with_cosine[k] == spectrum[k].re,
        block.k_lo <= j <= block.k_hi,
    ensures
        block.k_lo <= answer.0 <= block.k_hi,
        with_sine[j].value() == -spectrum[j].im.value(),
        answer.1 == projected(
            r,
            block,
            answer.0 as int,
            with_sine[answer.0 as int],
            with_cosine[answer.0 as int],
        ),
        !solve_of(
            r,
            block.inverse(answer.0 as int),
            with_sine[answer.0 as int],
            with_cosine[answer.0 as int],
        ).energy.less(solve_of(r, block.inverse(j), with_sine[j], with_cosine[j]).energy),
{
    lemma_mirrored_single(spectrum[j].im);
    let energies = bin_energies(r, block, spectrum);
    assert(energies.len() == block.bins());
    let k = answer.0 as int;
    assert(energies[k - block.k_lo] == solve_of(
        r,
        block.inverse(k),
        spectrum[k].im.mirrored(),
        spectrum[k].re,
    ).energy);
    assert(energies[j - block.k_lo] == solve_of(
        r,
        block.inverse(j),
        spectrum[j].im.mirrored(),
        spectrum[j].re,
    ).energy);
}

} // verus!
