//! Where a bin's Gram comes from.

use crate::dict::{e2_at, gram_at, gram_bin_of, is_block, squares, Bin, Block, BlockConfig};
use crate::atom::Envelope;
use crate::ieee::{Double, Single};
use crate::reals::Reals;
use crate::rounding::{
    close, gives_single, least, lemma_close_sign, lemma_close_to_itself, lemma_in_order,
    lemma_mirrored_single, lemma_nothing_single, lemma_over, lemma_plus, lemma_small_numbers,
    lemma_times, moderate, rounds, tame,
};
use vstd::prelude::*;

verus! {

/// What is transformed for the Grams is the square of the envelope, and nothing past its end.
pub proof fn law_the_square_of_the_envelope_is_transformed<R: Reals>(
    r: &R,
    env: Seq<Single>,
    fft_len: int,
    t: int,
)
    requires
        rounds(r),
        0 <= t < fft_len,
        t < env.len() ==> env[t].finite() && moderate(env[t].value() * env[t].value()),
    ensures
        squares(r, env, fft_len).len() == fft_len,
        squares(r, env, fft_len)[t].finite(),
        close(
            squares(r, env, fft_len)[t].value(),
            if t < env.len() {
                env[t].value() * env[t].value()
            } else {
                0real
            },
            1,
        ),
{
    lemma_nothing_single();
    if t < env.len() {
        assert(gives_single(r.times_single_of(env[t], env[t]), env[t].value() * env[t].value()));
    } else {
        lemma_close_to_itself(0real, 1);
    }
}

/// The Gram of a bin is read from the spectrum of the envelope's square at twice the bin: a sine times
/// itself turns twice as fast. Its cosine sum is the real part there, and its sine sum the imaginary part
/// turned; past the middle, those of the mirror bin, the sine sum's sign turned back.
pub proof fn law_a_gram_is_read_at_twice_its_bin<R: Reals>(
    r: &R,
    energy: Double,
    spectrum: Seq<Bin>,
    fft_len: int,
    k: int,
) -> (answer: (Double, Double))
    requires
        rounds(r),
        0 <= 2 * k < fft_len,
        spectrum.len() == fft_len / 2 + 1,
        forall|i: int|
            0 <= i < spectrum.len() ==> (#[trigger] spectrum[i]).re.finite() && spectrum[i].im.finite(),
    ensures
        gram_at(r, energy, spectrum, fft_len, k) == gram_bin_of(r, energy, answer.0, answer.1),
        4 * k <= fft_len - fft_len % 2 ==> {
            &&& answer.0.value() == spectrum[2 * k].re.value()
            &&& answer.1.value() == -spectrum[2 * k].im.value()
        },
        4 * k > fft_len - fft_len % 2 ==> {
            &&& answer.0.value() == spectrum[fft_len - 2 * k].re.value()
            &&& answer.1.value() == spectrum[fft_len - 2 * k].im.value()
        },
{
    vstd::arithmetic::div_mod::lemma_small_mod((2 * k) as nat, fft_len as nat);
    if 2 * k <= fft_len / 2 {
        lemma_mirrored_single(spectrum[2 * k].im);
        assert(spectrum[2 * k].re.finite());
    } else {
        assert(spectrum[fft_len - 2 * k].re.finite());
    }
    e2_at(r, spectrum, fft_len, 2 * k)
}

/// A block's bins hold the Grams of their own frequencies, where those can be used, and nothing where not.
pub proof fn law_a_blocks_bins_are_their_own<R: Reals>(
    r: &R,
    b: Block,
    env: Envelope,
    cfg: BlockConfig,
    spectrum: Seq<Bin>,
    i: int,
)
    requires
        is_block(b, r, env, cfg, spectrum),
        0 <= i < b.bins(),
    ensures
        ({
            let g = gram_at(r, b.env.energy, spectrum, b.fft_len as int, b.k_lo + i);
            &&& b.rho@[i] == g.rho
            &&& (b.inv_uu@[i], b.inv_uv@[i], b.inv_vv@[i]) == if g.rho_sq.at_most(
                r.widen_of(cfg.rho_sq_max),
            ) && g.det.positive() && g.guu.positive() {
                (g.inv_uu, g.inv_uv, g.inv_vv)
            } else {
                (Single { bits: 0 }, Single { bits: 0 }, Single { bits: 0 })
            }
        }),
{
    assert(b.rho@[i] == b.rho@[i]);
}

/// A bin's squared coherence is the squared length of its two sums over the square of the energy, and never
/// more than one.
pub proof fn law_coherence_is_relative_to_the_energy<R: Reals>(r: &R, p: Double, c: Double, s: Double)
    requires
        rounds(r),
        p.finite() && c.finite() && s.finite(),
        0real < p.value() && 0real < c.value() && 0real < s.value(),
        tame(p.value() * p.value()),
        tame(c.value() * c.value()),
        tame(s.value() * s.value()),
        tame(c.value() * c.value() + s.value() * s.value()),
        tame((c.value() * c.value() + s.value() * s.value()) / (p.value() * p.value())),
    ensures
        gram_bin_of(r, p, c, s).rho_sq.finite(),
        exists|x: real|
            {
                &&& #[trigger] close(
                    x,
                    (c.value() * c.value() + s.value() * s.value()) / (p.value() * p.value()),
                    12,
                )
                &&& gram_bin_of(r, p, c, s).rho_sq.value() == least(x, 1real)
            },
{
    lemma_small_numbers();
    let (pv, cv, sv) = (p.value(), c.value(), s.value());
    lemma_close_to_itself(pv, 0);
    lemma_close_to_itself(cv, 0);
    lemma_close_to_itself(sv, 0);
    lemma_times(r, p, p, pv, pv, 0, 0);
    lemma_times(r, c, c, cv, cv, 0, 0);
    lemma_times(r, s, s, sv, sv, 0, 0);
    let (pp, cc, ss) = (r.times_of(p, p), r.times_of(c, c), r.times_of(s, s));
    lemma_plus(r, cc, ss, cv * cv, sv * sv, 3);
    let top = r.plus_of(cc, ss);
    lemma_close_sign(pp.value(), pv * pv, 3);
    lemma_over(r, top, pp, cv * cv + sv * sv, pv * pv, 5, 3);
    let q = r.over_of(top, pp);
    let ideal = (cv * cv + sv * sv) / (pv * pv);
    lemma_close_sign(q.value(), ideal, 12);
    let (zero, one) = (Double { bits: 0 }, Double { bits: 0x3ff0_0000_0000_0000 });
    lemma_in_order(q, zero);
    lemma_in_order(one, q);
    assert(close(q.value(), ideal, 12));
}

} // verus!
