//! What a Gaussian atom sounds like.

use crate::gauss::{value_of, Carrier};
use crate::atom::{energy_of, GaussianParams};
use crate::ieee::{Double, Single};
use crate::reals::Reals;
use crate::rounding::{
    apart, close, exponentiates, gives, gives_single, is_exponential, lemma_circle_constants,
    lemma_close_looser, lemma_close_mirrored, lemma_close_product, lemma_close_ratio, lemma_close_sign,
    lemma_close_through, lemma_close_to_itself, lemma_counts, lemma_decays, lemma_mirrored,
    lemma_mirrored_ratio, lemma_one_more, lemma_over, lemma_small_numbers, lemma_square_above,
    lemma_times, moderate, near, rounds, size, steady, tame, turns,
};
use crate::subtract::power;
use vstd::prelude::*;

verus! {

proof fn lemma_square_of_size(x: real)
    by (nonlinear_arith)
    ensures
        size(x) * size(x) == x * x,
{
}

proof fn lemma_square_of_a_distance(x: real)
    by (nonlinear_arith)
    requires
        1real <= x <= 1_000_000_000real,
    ensures
        1real <= x * x <= 1_000_000_000_000_000_000real,
{
}

/// A Gaussian atom is loudest in the middle of its support: sample `n` is the exponential of minus the
/// square of its distance from the middle, over twice the square of the deviation.
pub proof fn law_an_atom_is_loudest_in_its_middle<R: Reals>(
    r: &R,
    e: spec_fn(real) -> real,
    n: usize,
    h: usize,
    two_s2: Double,
)
    requires
        rounds(r),
        is_exponential(e),
        exponentiates(r, e),
        r.count_of(n).finite() && r.count_of(n).value() == n as real,
        r.count_of(h).finite() && r.count_of(h).value() == h as real,
        two_s2.finite(),
        0real < two_s2.value(),
        1real <= size(n as real - h as real) <= 1_000_000_000real,
        ({
            let d = n as real - h as real;
            tame(d * d / two_s2.value()) && moderate(e(-(2real * (d * d / two_s2.value()))))
        }),
    ensures
        value_of(r, n, h, two_s2).finite(),
        exists|x: real|
            {
                &&& #[trigger] close(
                    x,
                    (n as real - h as real) * (n as real - h as real) / two_s2.value(),
                    12,
                )
                &&& close(value_of(r, n, h, two_s2).value(), e(-x), 1)
            },
{
    let d = n as real - h as real;
    let w = two_s2.value();
    let dm = r.minus_of(r.count_of(n), r.count_of(h));
    assert(moderate(d));
    assert(gives(dm, d));
    lemma_square_of_a_distance(size(d));
    lemma_square_of_size(d);
    lemma_square_of_size(dm.value());
    lemma_close_mirrored(dm.value(), d, 1);
    lemma_close_sign(dm.value(), d, 1);
    lemma_close_sign(-dm.value(), -d, 1);
    assert(close(size(dm.value()), size(d), 1));
    lemma_close_product(size(dm.value()), size(dm.value()), size(d), size(d), 1, 1);
    let (s, t) = (dm.value() * dm.value(), d * d);
    lemma_close_sign(s, t, 3);
    assert(moderate(s));
    let sq = r.times_of(dm, dm);
    assert(gives(sq, s));
    lemma_close_through(sq.value(), s, t, 1, 3);
    lemma_mirrored(sq);
    lemma_close_to_itself(w, 0);
    lemma_close_ratio(sq.value(), w, t, w, 5, 0);
    lemma_mirrored_ratio(sq.value(), w);
    let q = r.over_of(sq.mirrored(), two_s2);
    let y = sq.value() / w;
    lemma_close_sign(y, t / w, 7);
    assert(moderate(-y));
    assert(gives(q, -y));
    lemma_close_mirrored(q.value(), -y, 1);
    let x = -q.value();
    lemma_close_through(x, y, t / w, 1, 7);
    lemma_close_looser(x, t / w, 9, 12);
    lemma_decays(r, e, q, t / w, 9);
    assert(-x == q.value());
}

/// A sample of a Gaussian atom is its amplitude, times its envelope, times the sine of its phase and of what
/// its carrier has turned since the start: a cycle in as many samples as the rate holds of its frequency.
pub proof fn law_a_sample_is_envelope_times_carrier<R: Reals>(
    r: &R,
    cosine: spec_fn(real) -> real,
    sine: spec_fn(real) -> real,
    p: GaussianParams,
    c: Carrier,
    sample_rate: Single,
    n: usize,
)
    requires
        rounds(r),
        turns(r, cosine, sine),
        c.f.finite() && c.phi.finite() && c.amp.finite() && sample_rate.finite(),
        0real < c.f.value(),
        0real < sample_rate.value(),
        1 <= n,
        tame(6_283_185real / 1_000_000real * c.f.value()),
        tame(6_283_185real / 1_000_000real * c.f.value() / sample_rate.value()),
        tame(6_283_185real / 1_000_000real * c.f.value() / sample_rate.value() * n as real),
        value_of(r, n, p.reach(r, sample_rate), p.width(r, sample_rate)).finite(),
        moderate(
            c.amp.value() * value_of(r, n, p.reach(r, sample_rate), p.width(r, sample_rate)).value(),
        ),
    ensures
        exists|turned: real|
            {
                &&& #[trigger] close(
                    turned,
                    6_283_185real / 1_000_000real * c.f.value() / sample_rate.value() * n as real,
                    13,
                )
                &&& moderate(c.phi.value() + turned) ==> exists|x: real|
                    {
                        &&& #[trigger] close(x, c.phi.value() + turned, 1)
                        &&& exists|wave: real, a: real|
                            {
                                &&& #[trigger] apart(wave, sine(x))
                                &&& #[trigger] close(
                                    a,
                                    c.amp.value() * value_of(
                                        r,
                                        n,
                                        p.reach(r, sample_rate),
                                        p.width(r, sample_rate),
                                    ).value(),
                                    1,
                                )
                                &&& moderate(a * wave) ==> exists|y: real| #[trigger]
                                    close(y, a * wave, 1) && gives_single(
                                        p.sample(r, c, sample_rate, n),
                                        y,
                                    )
                            }
                    }
            },
{
    lemma_circle_constants();
    lemma_counts(r, n);
    let tau = 6_283_185real / 1_000_000real;
    let circle = Double { bits: 0x4019_21fb_5444_2d18 };
    let (f, fs) = (c.f.value(), sample_rate.value());
    lemma_close_to_itself(f, 0);
    lemma_close_to_itself(fs, 0);
    lemma_times(r, circle, r.widen_of(c.f), tau, f, 1, 0);
    let top = r.times_of(circle, r.widen_of(c.f));
    lemma_over(r, top, r.widen_of(sample_rate), tau * f, fs, 4, 0);
    let omega = r.over_of(top, r.widen_of(sample_rate));
    lemma_times(r, omega, r.count_of(n), tau * f / fs, n as real, 8, 1);
    let t = r.times_of(omega, r.count_of(n));
    let turned = t.value();
    lemma_close_looser(turned, tau * f / fs * n as real, 12, 13);
    let g = value_of(r, n, p.reach(r, sample_rate), p.width(r, sample_rate));
    let ag = r.times_of(r.widen_of(c.amp), g);
    let a = ag.value();
    assert(gives(ag, c.amp.value() * g.value()));
    if moderate(c.phi.value() + turned) {
        let ph = r.plus_of(r.widen_of(c.phi), t);
        assert(gives(ph, c.phi.value() + turned));
        let x = ph.value();
        let s = r.sine_of(ph);
        let wave = s.value();
        assert(apart(wave, sine(x)));
        if moderate(a * wave) {
            let out = r.times_of(ag, s);
            assert(gives(out, a * wave));
            assert(close(out.value(), a * wave, 1) && gives_single(r.narrow_of(out), out.value()));
        }
        assert(apart(wave, sine(x)) && close(a, c.amp.value() * g.value(), 1));
        assert(close(x, c.phi.value() + turned, 1));
    }
    assert(close(turned, tau * f / fs * n as real, 13));
}

/// An energy is the squares of all the samples together, however many there are, to within two of the
/// machine's errors a sample.
pub proof fn law_an_energy_is_of_every_sample<R: Reals>(
    r: &R,
    samples: Seq<Single>,
    n: int,
    limit: real,
    err: real,
)
    requires
        steady(r, limit, err),
        0real <= err,
        0 <= n <= samples.len(),
        forall|i: int| 0 <= i < n ==> (#[trigger] samples[i]).finite(),
        power(samples, n) + 2real * (n as real * err) <= limit,
    ensures
        near(energy_of(r, samples, n), power(samples, n), 2real * (n as real * err)),
        0real <= power(samples, n),
    decreases n,
{
    if n == 0 {
        lemma_small_numbers();
        lemma_mirrored(Double { bits: 0 });
        assert((Double { bits: 0 }).mirrored() == Double { bits: 0x8000_0000_0000_0000 });
        lemma_one_more(0, err);
        assert(1int as real * err == err) by (nonlinear_arith);
    } else {
        let x = r.widen_of(samples[n - 1]);
        lemma_one_more(n - 1, err);
        lemma_square_above(x.value());
        law_an_energy_is_of_every_sample(r, samples, n - 1, limit, err);
        let before = energy_of(r, samples, n - 1);
        let sq = r.times_of(x, x);
        assert(near(sq, x.value() * x.value(), err));
        assert(near(r.plus_of(before, sq), before.value() + sq.value(), err));
    }
}

} // verus!
