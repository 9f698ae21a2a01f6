//! What a filter's sections compute.
//!
//! A band is a cascade of complex one-pole sections, written out in its real and imaginary parts. What
//! those come to, as complex numbers, is stated here.

use crate::ieee::{Double, Single};
use crate::reals::Reals;
use crate::residual::analyze::{frame_level, level};
use crate::residual::book::frame_sum;
use crate::residual::erb::{erb_rate_of, erb_rate_to_hz_of};
use crate::residual::filter::{at_rest, fed, output, stepped, through, GammatoneBand};
use crate::residual::math::{BankMath, Bands, Complex, Pole};
use crate::rounding::{
    close, gives, lemma_close_sign, lemma_close_through, lemma_close_to_itself,
    lemma_counts, lemma_mirrored, lemma_one_more, lemma_over, lemma_plus, lemma_small_numbers, lemma_times, moderate, near, rounds, size, steady, takes_roots, tame,
};
use vstd::prelude::*;

verus! {

/// The parts of a complex number are finite and no larger than `most`.
pub open spec fn held(a: Complex, most: real) -> bool {
    &&& a.re.finite() && a.im.finite()
    &&& size(a.re.value()) <= most
    &&& size(a.im.value()) <= most
}

proof fn lemma_product_is_held(a: real, b: real, p: real, q: real)
    by (nonlinear_arith)
    requires
        size(a) <= p,
        size(b) <= q,
    ensures
        size(a * b) <= p * q,
{
}

/// A product of complex numbers is that: the real parts' product less the imaginary parts', and the mixed
/// products together.
pub proof fn law_a_product_is_complex<R: Reals>(
    m: &Bands<R>,
    a: Complex,
    b: Complex,
    p: real,
    q: real,
    limit: real,
    err: real,
)
    requires
        steady(&m.reals, limit, err),
        0real <= err,
        held(a, p),
        held(b, q),
        2real * (p * q) + 2real * err <= limit,
    ensures
        near(
            m.product_of(a, b).re,
            a.re.value() * b.re.value() - a.im.value() * b.im.value(),
            3real * err,
        ),
        near(
            m.product_of(a, b).im,
            a.re.value() * b.im.value() + a.im.value() * b.re.value(),
            3real * err,
        ),
{
    let r = &m.reals;
    lemma_product_is_held(a.re.value(), b.re.value(), p, q);
    lemma_product_is_held(a.im.value(), b.im.value(), p, q);
    lemma_product_is_held(a.re.value(), b.im.value(), p, q);
    lemma_product_is_held(a.im.value(), b.re.value(), p, q);
    let (rr, ii) = (r.times_of(a.re, b.re), r.times_of(a.im, b.im));
    let (ri, ir) = (r.times_of(a.re, b.im), r.times_of(a.im, b.re));
    assert(near(rr, a.re.value() * b.re.value(), err) && near(ii, a.im.value() * b.im.value(), err));
    assert(near(ri, a.re.value() * b.im.value(), err) && near(ir, a.im.value() * b.re.value(), err));
    assert(near(r.minus_of(rr, ii), rr.value() - ii.value(), err));
    assert(near(r.plus_of(ri, ir), ri.value() + ir.value(), err));
}

/// A number with a product added, and another one added or taken away.
proof fn lemma_with_two_products<R: Reals>(
    r: &R,
    v: Double,
    a: Double,
    b: Double,
    c: Double,
    d: Double,
    p: real,
    q: real,
    limit: real,
    err: real,
)
    requires
        steady(r, limit, err),
        0real <= err,
        v.finite() && a.finite() && b.finite() && c.finite() && d.finite(),
        size(v.value()) <= q,
        size(a.value()) <= p && size(c.value()) <= p,
        size(b.value()) <= q && size(d.value()) <= q,
        q + 2real * (p * q) + 4real * err <= limit,
    ensures
        near(
            r.minus_of(r.plus_of(v, r.times_of(a, b)), r.times_of(c, d)),
            v.value() + (a.value() * b.value() - c.value() * d.value()),
            4real * err,
        ),
        near(
            r.plus_of(r.plus_of(v, r.times_of(a, b)), r.times_of(c, d)),
            v.value() + (a.value() * b.value() + c.value() * d.value()),
            4real * err,
        ),
{
    let (x, y) = (a.value() * b.value(), c.value() * d.value());
    lemma_product_is_held(a.value(), b.value(), p, q);
    lemma_product_is_held(c.value(), d.value(), p, q);
    let (ab, cd) = (r.times_of(a, b), r.times_of(c, d));
    assert(near(ab, x, err) && near(cd, y, err));
    let s = r.plus_of(v, ab);
    assert(near(s, v.value() + ab.value(), err));
    assert(near(r.minus_of(s, cd), s.value() - cd.value(), err));
    assert(near(r.plus_of(s, cd), s.value() + cd.value(), err));
}

/// A section adds what enters it to its state times its pole.
pub proof fn law_a_section_adds_its_turned_state<R: Reals>(
    m: &Bands<R>,
    v: Complex,
    pole: Pole,
    s: Complex,
    p: real,
    q: real,
    limit: real,
    err: real,
)
    requires
        steady(&m.reals, limit, err),
        0real <= err,
        held(v, q),
        held(Complex { re: pole.re, im: pole.im }, p),
        held(s, q),
        q + 2real * (p * q) + 4real * err <= limit,
    ensures
        near(
            m.advance_of(v, pole, s).re,
            v.re.value() + (pole.re.value() * s.re.value() - pole.im.value() * s.im.value()),
            4real * err,
        ),
        near(
            m.advance_of(v, pole, s).im,
            v.im.value() + (pole.re.value() * s.im.value() + pole.im.value() * s.re.value()),
            4real * err,
        ),
{
    let r = &m.reals;
    lemma_with_two_products(r, v.re, pole.re, s.re, pole.im, s.im, p, q, limit, err);
    lemma_with_two_products(r, v.im, pole.re, s.im, pole.im, s.re, p, q, limit, err);
}

/// A cascade feeds each section what left the one before it, the first with the sample, and each keeps what
/// left it; what comes out is twice the real part of what left the last.
pub proof fn law_sections_follow_one_another<M: BankMath>(
    m: &M,
    pole: Pole,
    state: Seq<Complex>,
    x: Double,
    i: int,
)
    requires
        0 <= i < state.len(),
    ensures
        stepped(m, pole, state, x).len() == state.len(),
        stepped(m, pole, state, x)[i] == m.advance_of(
            if i == 0 {
                (Complex { re: x, im: Double { bits: 0 } })
            } else {
                stepped(m, pole, state, x)[i - 1]
            },
            pole,
            state[i],
        ),
        output(m, pole, state, x) == m.twice_of(stepped(m, pole, state, x).last().re),
{
    reveal_with_fuel(through, 2);
}

/// Twice a number is that.
pub proof fn law_twice_is_double<R: Reals>(m: &Bands<R>, x: Double)
    requires
        rounds(&m.reals),
        x.finite(),
        moderate(2real * x.value()),
    ensures
        m.twice_of(x).finite(),
        close(m.twice_of(x).value(), 2real * x.value(), 1),
{
    lemma_small_numbers();
    assert(gives(m.twice_of(x), 2real * x.value()));
}

/// A number's square is that of a complex number's length.
pub open spec fn is_length(x: real, a: Complex) -> bool {
    0real < x && close(x * x, a.re.value() * a.re.value() + a.im.value() * a.im.value(), 10)
}

/// A level is the gain times the length of a complex number: its square is the product of theirs.
pub proof fn law_a_level_is_gain_times_length<R: Reals>(m: &Bands<R>, gain: Double, a: Complex)
    requires
        rounds(&m.reals),
        takes_roots(&m.reals),
        gain.finite() && a.re.finite() && a.im.finite(),
        0real < gain.value(),
        0real < a.re.value() && 0real < a.im.value(),
        tame(a.re.value() * a.re.value()),
        tame(a.im.value() * a.im.value()),
        tame(a.re.value() * a.re.value() + a.im.value() * a.im.value()),
        forall|x: real| #[trigger] is_length(x, a) ==> tame(gain.value() * x),
    ensures
        m.level_of(gain, a).finite(),
        exists|x: real|
            {
                &&& #[trigger] is_length(x, a)
                &&& close(m.level_of(gain, a).value(), gain.value() * x, 3)
            },
{
    let r = &m.reals;
    let (u, v) = (a.re.value(), a.im.value());
    lemma_close_to_itself(u, 0);
    lemma_close_to_itself(v, 0);
    lemma_close_to_itself(gain.value(), 0);
    lemma_times(r, a.re, a.re, u, u, 0, 0);
    lemma_times(r, a.im, a.im, v, v, 0, 0);
    let (p, q) = (r.times_of(a.re, a.re), r.times_of(a.im, a.im));
    lemma_plus(r, p, q, u * u, v * v, 3);
    let s = r.plus_of(p, q);
    lemma_close_sign(s.value(), u * u + v * v, 5);
    let root = r.root_of(s);
    let x = root.value();
    lemma_close_through(x * x, s.value(), u * u + v * v, 3, 5);
    crate::rounding::lemma_close_looser(x * x, u * u + v * v, 9, 10);
    assert(is_length(x, a));
    lemma_close_to_itself(x, 0);
    lemma_times(r, gain, root, gain.value(), x, 0, 0);
    assert(close(m.level_of(gain, a).value(), gain.value() * x, 3));
}

/// Centres are evenly spaced on the ERB-rate scale: centre `b` of `last` is at the frequency whose rate
/// lies `b / last` of the way from the low end's to the high end's.
pub proof fn law_centres_are_even_on_the_scale<R: Reals>(
    m: &Bands<R>,
    min: Double,
    max: Double,
    b: usize,
    last: usize,
)
    requires
        rounds(&m.reals),
        1 <= b <= last,
        erb_rate_of(&m.reals, min).finite() && erb_rate_of(&m.reals, max).finite(),
        ({
            let lo = erb_rate_of(&m.reals, min).value();
            let d = erb_rate_of(&m.reals, max).value() - lo;
            &&& 0real <= lo
            &&& tame(d)
            &&& tame(d * b as real)
            &&& tame(d * b as real / last as real)
            &&& tame(lo + d * b as real / last as real)
        }),
    ensures
        ({
            let lo = erb_rate_of(&m.reals, min).value();
            let d = erb_rate_of(&m.reals, max).value() - lo;
            exists|x: Double|
                {
                    &&& x.finite()
                    &&& #[trigger] close(x.value(), lo + d * b as real / last as real, 12)
                    &&& m.centre_of(min, max, b, last) == erb_rate_to_hz_of(&m.reals, x)
                }
        }),
{
    let r = &m.reals;
    let (lo, hi) = (erb_rate_of(r, min), erb_rate_of(r, max));
    let d = hi.value() - lo.value();
    let gap = r.minus_of(hi, lo);
    assert(moderate(d));
    assert(gives(gap, d));
    lemma_counts(r, b);
    lemma_counts(r, last);
    lemma_times(r, gap, r.count_of(b), d, b as real, 1, 1);
    let top = r.times_of(gap, r.count_of(b));
    lemma_over(r, top, r.count_of(last), d * b as real, last as real, 5, 1);
    let part = r.over_of(top, r.count_of(last));
    lemma_close_to_itself(lo.value(), 10);
    lemma_plus(r, lo, part, lo.value(), d * b as real / last as real, 10);
    let x = r.plus_of(lo, part);
    assert(close(x.value(), lo.value() + d * b as real / last as real, 12));
}

/// A frequency delayed by one sample is turned back by it: its cosine, and its sine mirrored.
pub proof fn law_a_delay_turns_back<R: Reals>(m: &Bands<R>, omega: Double)
    requires
        m.reals.sine_of(omega).finite(),
    ensures
        m.delay_of(omega).re == m.reals.cosine_of(omega),
        m.delay_of(omega).im.value() == -m.reals.sine_of(omega).value(),
{
    lemma_mirrored(m.reals.sine_of(omega));
}

/// A band hears each sample through the state all the samples before it left, and its frame `k` holds its
/// detector right after it has heard sample `k` times the update: that sample, and none after it.
pub proof fn law_a_frame_has_heard_its_own_sample<M: BankMath>(
    m: &M,
    b: GammatoneBand,
    order: int,
    a: Double,
    signal: Seq<Single>,
    update: int,
    k: int,
)
    requires
        0 <= k,
        1 <= update,
        k * update < signal.len(),
    ensures
        ({
            let n = k * update;
            let state = fed(m, b.pole, at_rest(order), signal, n);
            let x = m.double_of(signal[n]);
            &&& frame_level(m, b, order, a, signal, update, k) == m.single_of(
                m.detect_of(
                    a,
                    level(m, b.pole, b.gain, order, a, signal, n),
                    m.times_of(b.gain, output(m, b.pole, state, x)),
                ),
            )
            &&& fed(m, b.pole, at_rest(order), signal, n + 1) == stepped(m, b.pole, state, x)
            &&& level(m, b.pole, b.gain, order, a, signal, 0) == (Double { bits: 0 })
        }),
{
    assert(0 <= k * update) by (nonlinear_arith)
        requires
            0 <= k,
            1 <= update,
    ;
}

/// The power of the first `n` bands of a frame.
pub open spec fn power_of_bands(frame: Seq<Single>, n: int) -> real
    decreases n,
{
    if n <= 0 {
        0real
    } else {
        power_of_bands(frame, n - 1) + frame[n - 1].value()
    }
}

/// A frame's power is its bands' together, to within an error a band.
pub proof fn law_a_frames_power_is_its_bands_together<R: Reals>(
    m: &Bands<R>,
    frame: Seq<Single>,
    n: int,
    limit: real,
    err: real,
)
    requires
        steady(&m.reals, limit, err),
        0real <= err,
        0 <= n <= frame.len(),
        forall|i: int| 0 <= i < n ==> (#[trigger] frame[i]).finite(),
        forall|i: int|
            0 <= i <= n ==> size(#[trigger] power_of_bands(frame, i)) + n as real * err <= limit,
    ensures
        near(frame_sum(m, frame, n), power_of_bands(frame, n), n as real * err),
    decreases n,
{
    if n == 0 {
        lemma_small_numbers();
        lemma_mirrored(Double { bits: 0 });
        assert((Double { bits: 0 }).mirrored() == Double { bits: 0x8000_0000_0000_0000 });
        lemma_one_more(0, err);
        assert(1int as real * err == err) by (nonlinear_arith);
    } else {
        lemma_one_more(n - 1, err);
        assert forall|i: int| 0 <= i <= n - 1 implies size(#[trigger] power_of_bands(frame, i)) + (n - 1) as real
            * err <= limit by {
        }
        law_a_frames_power_is_its_bands_together(m, frame, n - 1, limit, err);
        assert(size(power_of_bands(frame, n)) + n as real * err <= limit);
        let (s, x) = (frame_sum(m, frame, n - 1), m.double_of(frame[n - 1]));
        assert(near(m.reals.plus_of(s, x), s.value() + x.value(), err));
    }
}

} // verus!
