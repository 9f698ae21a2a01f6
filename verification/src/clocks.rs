//! What a run's timings say.

use crate::ieee::Single;
use crate::pipeline::Timing;
use crate::reals::Reals;
use crate::rounding::{
    close, gives_single, lemma_close_looser, lemma_close_sign, lemma_close_to_itself,
    lemma_larger_single, lemma_over_single, lemma_plus_single, lemma_single_above_one,
    lemma_single_below_one, moderate, rounds, tame,
};
use vstd::arithmetic::power2::pow2;
use vstd::prelude::*;

verus! {

/// The machine's singles of whole numbers round.
pub open spec fn counts_in_singles<R: Reals>(r: &R) -> bool {
    forall|n: i128| 0 <= n ==> gives_single(#[trigger] r.long_single_of(n), n as real)
}

/// A billion nanoseconds are a second.
pub proof fn law_a_billion_nanoseconds_are_a_second<R: Reals>(r: &R, nanos: u128)
    requires
        rounds(r),
        counts_in_singles(r),
        1 <= nanos <= 1_000_000_000_000_000_000,
    ensures
        Timing::secs(r, nanos).finite(),
        close(Timing::secs(r, nanos).value(), nanos as real / 1_000_000_000real, 7),
{
    vstd::arithmetic::power2::lemma2_to64();
    let billion = Single { bits: 0x4e6e_6b28 };
    lemma_single_above_one(billion, 29, 0x6e_6b28);
    assert((0x80_0000 + 0x6e_6b28) * pow2(29) == 0x80_0000 * 1_000_000_000);
    assert(((0x80_0000 + 0x6e_6b28) * pow2(29)) as real == 0x80_0000real * 1_000_000_000real);
    assert(billion.value() == 1_000_000_000real);
    let (q, m) = ((nanos / 1_000_000_000) as i128, (nanos % 1_000_000_000) as i128);
    assert(q * 1_000_000_000 + m == nanos);
    assert(moderate(q as real) && moderate(m as real));
    let (a, b) = (r.long_single_of(q), r.long_single_of(m));
    assert(gives_single(a, q as real) && gives_single(b, m as real));
    let part = r.over_single_of(b, billion);
    if m == 0 {
        assert(m as real == 0real);
        lemma_close_sign(b.value(), 0real, 1);
        assert(0real / 1_000_000_000real == 0real);
        assert(gives_single(part, 0real));
        lemma_close_looser(part.value(), 0real, 1, 5);
    } else {
        lemma_close_to_itself(1_000_000_000real, 0);
        lemma_over_single(r, b, billion, m as real, 1_000_000_000real, 1, 0);
    }
    lemma_close_looser(a.value(), q as real, 1, 5);
    assert(close(part.value(), m as real / 1_000_000_000real, 5));
    let ideal = q as real + m as real / 1_000_000_000real;
    assert(ideal * 1_000_000_000real == nanos as real);
    assert(ideal == nanos as real / 1_000_000_000real);
    assert(tame(ideal));
    lemma_plus_single(r, a, part, q as real, m as real / 1_000_000_000real, 5);
}

/// A run's rate is the time its tables and its pursuit took, over the sound's: below one is faster than it
/// plays.
pub proof fn law_the_rate_is_time_over_sound<R: Reals>(r: &R, t: Timing, seconds: Single)
    requires
        rounds(r),
        counts_in_singles(r),
        1 <= t.init + t.pursuit <= 1_000_000_000_000_000_000,
        seconds.finite(),
        1real / 1_000_000real <= seconds.value(),
        tame((t.init + t.pursuit) as real / 1_000_000_000real / seconds.value()),
    ensures
        t.rate(r, seconds).finite(),
        close(
            t.rate(r, seconds).value(),
            (t.init + t.pursuit) as real / 1_000_000_000real / seconds.value(),
            11,
        ),
{
    let nanos = (t.init + t.pursuit) as u128;
    law_a_billion_nanoseconds_are_a_second(r, nanos);
    vstd::arithmetic::power2::lemma2_to64();
    let tiny = Single { bits: 0x3089_705f };
    lemma_single_below_one(tiny, 30, 0x9_705f);
    assert(0x80_0000 * pow2(30) == 0x20_0000_0000_0000);
    assert((0x80_0000 * pow2(30)) as real == 0x20_0000_0000_0000real);
    assert(tiny.value() * 0x20_0000_0000_0000real == 0x89_705freal);
    lemma_larger_single(seconds, tiny);
    let held = seconds.larger(tiny);
    assert(held.value() == seconds.value());
    lemma_close_to_itself(seconds.value(), 0);
    let s = Timing::secs(r, nanos);
    assert(0real < nanos as real / 1_000_000_000real);
    lemma_over_single(r, s, held, nanos as real / 1_000_000_000real, seconds.value(), 7, 0);
}

} // verus!
