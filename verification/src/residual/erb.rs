//! Where the bands sit on the ERB frequency scale.

use crate::ieee::Double;
use crate::residual::error::ResidualAnalysisError;
use crate::residual::math::BankMath;
use crate::reals::Reals;
use crate::rounding::{
    close, gives, is_log, is_logarithm, lemma_close_looser, lemma_close_scaled, lemma_close_sign,
    lemma_close_through, lemma_close_to_itself, lemma_double_above_one, lemma_double_below_one,
    lemma_logarithm_of_one, lemma_moderate_product, lemma_over, lemma_plus, lemma_small_numbers,
    lemma_times, lemma_within_a_millionth, ordinary, rounds, takes_log10s,
    tame,
};
use vstd::arithmetic::power2::pow2;
use vstd::prelude::*;

verus! {

/// The equivalent rectangular bandwidth at `f`, Hz.
pub open spec fn erb_bandwidth_hz_of<R: Reals>(r: &R, f: Double) -> Double {
    r.times_of((Double { bits: 0x4038_b333_3333_3333 }), r.plus_of((Double { bits: 0x3ff0_0000_0000_0000 }), r.over_of(r.times_of((Double { bits: 0x4011_7ae1_47ae_147b }), f), (Double { bits: 0x408f_4000_0000_0000 }))))
}

/// The equivalent rectangular bandwidth at `f`, Hz.
pub fn erb_bandwidth_hz<R: Reals>(r: &R, f: Double) -> (answer: Double)
    requires
        r.repeatable(),
    ensures
        answer == erb_bandwidth_hz_of(r, f),
{
    r.times((Double { bits: 0x4038_b333_3333_3333 }), r.plus((Double { bits: 0x3ff0_0000_0000_0000 }), r.over(r.times((Double { bits: 0x4011_7ae1_47ae_147b }), f), (Double { bits: 0x408f_4000_0000_0000 }))))
}

/// The ERB-rate of `f` Hz.
pub open spec fn erb_rate_of<R: Reals>(r: &R, f: Double) -> Double {
    r.times_of((Double { bits: 0x4035_6666_6666_6666 }), r.log10_of(r.plus_of((Double { bits: 0x3ff0_0000_0000_0000 }), r.times_of((Double { bits: 0x3f71_e646_f156_1911 }), f))))
}

/// The ERB-rate of `f` Hz.
pub fn erb_rate<R: Reals>(r: &R, f: Double) -> (answer: Double)
    requires
        r.repeatable(),
    ensures
        answer == erb_rate_of(r, f),
{
    r.times((Double { bits: 0x4035_6666_6666_6666 }), r.log10(r.plus((Double { bits: 0x3ff0_0000_0000_0000 }), r.times((Double { bits: 0x3f71_e646_f156_1911 }), f))))
}

/// The frequency of an ERB-rate, Hz.
pub open spec fn erb_rate_to_hz_of<R: Reals>(r: &R, e: Double) -> Double {
    r.over_of(r.minus_of(r.power_of((Double { bits: 0x4024_0000_0000_0000 }), r.over_of(e, (Double { bits: 0x4035_6666_6666_6666 }))), (Double { bits: 0x3ff0_0000_0000_0000 })), (Double { bits: 0x3f71_e646_f156_1911 }))
}

/// The frequency of an ERB-rate, Hz.
pub fn erb_rate_to_hz<R: Reals>(r: &R, e: Double) -> (answer: Double)
    requires
        r.repeatable(),
    ensures
        answer == erb_rate_to_hz_of(r, e),
{
    r.over(r.minus(r.power((Double { bits: 0x4024_0000_0000_0000 }), r.over(e, (Double { bits: 0x4035_6666_6666_6666 }))), (Double { bits: 0x3ff0_0000_0000_0000 })), (Double { bits: 0x3f71_e646_f156_1911 }))
}

/// A range of frequencies bands can be placed in.
pub open spec fn range_ok(min_hz: Double, max_hz: Double) -> bool {
    min_hz.finite() && max_hz.finite() && min_hz.positive() && min_hz.less(max_hz)
}

/// Centre `b` of a bank. The ends are placed exactly.
pub open spec fn centre_at<M: BankMath>(
    m: &M,
    bands: usize,
    min_hz: Double,
    max_hz: Double,
    b: int,
) -> Double {
    if b == 0 {
        min_hz
    } else if b == bands - 1 {
        max_hz
    } else {
        m.centre_of(min_hz, max_hz, b as usize, (bands - 1) as usize)
    }
}

/// The centres of a bank.
pub open spec fn centres<M: BankMath>(m: &M, bands: usize, min_hz: Double, max_hz: Double) -> Seq<
    Double,
> {
    Seq::new(bands as nat, |b: int| centre_at(m, bands, min_hz, max_hz, b))
}

/// Band centres in Hz, uniformly spaced on ERB-rate from `min_hz` to `max_hz` inclusive.
///
/// The endpoints are placed exactly rather than at half-band insets: the range in the settings
/// document is the range the user asked for.
pub fn center_freqs<M: BankMath>(m: &M, bands: usize, min_hz: Double, max_hz: Double) -> (r: Result<
    Vec<Double>,
    ResidualAnalysisError,
>)
    requires
        m.repeatable(),
    ensures
        match r {
            Ok(f) => bands > 0 && range_ok(min_hz, max_hz) && f@ == centres(
                m,
                bands,
                min_hz,
                max_hz,
            ),
            Err(e) => if bands == 0 {
                e == ResidualAnalysisError::InvalidBandCount(bands)
            } else {
                !range_ok(min_hz, max_hz) && e == (ResidualAnalysisError::InvalidFrequencyRange {
                    min_hz,
                    max_hz,
                })
            },
        },
{
    if bands == 0 {
        return Err(ResidualAnalysisError::InvalidBandCount(bands));
    }
    if !(min_hz.is_finite() && max_hz.is_finite() && min_hz.is_positive() && max_hz.gt(min_hz)) {
        return Err(ResidualAnalysisError::InvalidFrequencyRange { min_hz, max_hz });
    }
    let last: usize = bands - 1;
    let mut out: Vec<Double> = Vec::new();
    let mut b: usize = 0;
    while b < bands
        invariant
            m.repeatable(),
            last == bands - 1,
            b <= bands,
            out@.len() == b,
            forall|i: int|
                0 <= i < b ==> #[trigger] out@[i] == centre_at(m, bands, min_hz, max_hz, i),
        decreases bands - b,
    {
        // The endpoints are returned as given rather than converted there and back.
        let f = if b == 0 {
            min_hz
        } else if b == last {
            max_hz
        } else {
            m.centre(min_hz, max_hz, b, last)
        };
        out.push(f);
        b += 1;
    }
    assert(out@ =~= centres(m, bands, min_hz, max_hz));
    Ok(out)
}

/// The first centre is the least frequency asked for and the last the greatest, to the bit.
pub proof fn law_centres_span_the_range<M: BankMath>(
    m: &M,
    bands: usize,
    min_hz: Double,
    max_hz: Double,
)
    requires
        bands >= 1,
    ensures
        centres(m, bands, min_hz, max_hz).len() == bands,
        centres(m, bands, min_hz, max_hz)[0] == min_hz,
        bands >= 2 ==> centres(m, bands, min_hz, max_hz).last() == max_hz,
{
}

/// The constants of the scale.
pub proof fn lemma_scale_constants()
    ensures
        (Double { bits: 0x4038_b333_3333_3333 }).finite(),
        close((Double { bits: 0x4038_b333_3333_3333 }).value(), 247real / 10real, 1),
        (Double { bits: 0x4011_7ae1_47ae_147b }).finite(),
        close((Double { bits: 0x4011_7ae1_47ae_147b }).value(), 437real / 100real, 1),
        (Double { bits: 0x408f_4000_0000_0000 }).finite(),
        (Double { bits: 0x408f_4000_0000_0000 }).value() == 1000real,
        (Double { bits: 0x4035_6666_6666_6666 }).finite(),
        close((Double { bits: 0x4035_6666_6666_6666 }).value(), 214real / 10real, 1),
        (Double { bits: 0x3f71_e646_f156_1911 }).finite(),
        close((Double { bits: 0x3f71_e646_f156_1911 }).value(), 437real / 100_000real, 1),
{
    vstd::arithmetic::power2::lemma2_to64();
    lemma_double_above_one(Double { bits: 0x4038_b333_3333_3333 }, 4, 0x8_b333_3333_3333);
    lemma_double_above_one(Double { bits: 0x4011_7ae1_47ae_147b }, 2, 0x1_7ae1_47ae_147b);
    lemma_double_above_one(Double { bits: 0x408f_4000_0000_0000 }, 9, 0xf_4000_0000_0000);
    lemma_double_above_one(Double { bits: 0x4035_6666_6666_6666 }, 4, 0x5_6666_6666_6666);
    lemma_double_below_one(Double { bits: 0x3f71_e646_f156_1911 }, 8, 0x1_e646_f156_1911);
    assert(0x10_0000_0000_0000 * pow2(8) == 0x1000_0000_0000_0000);
    assert((0x10_0000_0000_0000 * pow2(8)) as real == 0x1000_0000_0000_0000real);
    lemma_within_a_millionth((Double { bits: 0x4038_b333_3333_3333 }).value(), 247real / 10real);
    lemma_within_a_millionth((Double { bits: 0x4011_7ae1_47ae_147b }).value(), 437real / 100real);
    lemma_within_a_millionth((Double { bits: 0x4035_6666_6666_6666 }).value(), 214real / 10real);
    lemma_within_a_millionth((Double { bits: 0x3f71_e646_f156_1911 }).value(), 437real / 100_000real);
}

/// A band's bandwidth is `24.7 (1 + 4.37 f / 1000)` Hz.
pub proof fn law_bandwidth_widens_with_frequency<R: Reals>(r: &R, f: Double)
    requires
        rounds(r),
        f.finite(),
        ordinary(f.value()),
    ensures
        erb_bandwidth_hz_of(r, f).finite(),
        close(
            erb_bandwidth_hz_of(r, f).value(),
            247real / 10real * (1real + 437real / 100real * f.value() / 1000real),
            15,
        ),
{
    lemma_scale_constants();
    lemma_small_numbers();
    let x = f.value();
    lemma_close_to_itself(x, 0);
    lemma_close_to_itself(1000real, 0);
    lemma_close_to_itself(1real, 8);
    let a = r.times_of(Double { bits: 0x4011_7ae1_47ae_147b }, f);
    lemma_times(r, Double { bits: 0x4011_7ae1_47ae_147b }, f, 437real / 100real, x, 1, 0);
    let b = r.over_of(a, Double { bits: 0x408f_4000_0000_0000 });
    let y = 437real / 100real * x;
    lemma_over(r, a, Double { bits: 0x408f_4000_0000_0000 }, y, 1000real, 4, 0);
    let one = Double { bits: 0x3ff0_0000_0000_0000 };
    lemma_plus(r, one, b, 1real, y / 1000real, 8);
    let c = r.plus_of(one, b);
    let z = 1real + y / 1000real;
    lemma_times(r, Double { bits: 0x4038_b333_3333_3333 }, c, 247real / 10real, z, 1, 10);
    lemma_close_looser(
        erb_bandwidth_hz_of(r, f).value(),
        247real / 10real * z,
        14,
        15,
    );
}

/// The ERB-rate of a frequency is `21.4 log10(1 + 0.00437 f)`.
pub proof fn law_erb_rate_is_logarithmic<R: Reals>(r: &R, l: spec_fn(real) -> real, f: Double)
    requires
        rounds(r),
        is_logarithm(l, 10real),
        takes_log10s(r, l),
        f.finite(),
        ordinary(f.value()),
    ensures
        erb_rate_of(r, f).finite(),
        exists|x: real|
            {
                &&& #[trigger] close(x, 1real + 437real / 100_000real * f.value(), 6)
                &&& close(erb_rate_of(r, f).value(), 214real / 10real * l(x), 6)
            },
{
    lemma_scale_constants();
    lemma_small_numbers();
    let v = f.value();
    lemma_close_to_itself(v, 0);
    lemma_close_to_itself(1real, 4);
    let a = r.times_of(Double { bits: 0x3f71_e646_f156_1911 }, f);
    lemma_times(r, Double { bits: 0x3f71_e646_f156_1911 }, f, 437real / 100_000real, v, 1, 0);
    let one = Double { bits: 0x3ff0_0000_0000_0000 };
    let b = r.plus_of(one, a);
    let y = 1real + 437real / 100_000real * v;
    lemma_plus(r, one, a, 1real, 437real / 100_000real * v, 4);
    let x = b.value();
    lemma_close_sign(x, y, 6);
    let log = r.log10_of(b);
    assert(is_log(log, l(x)));
    // Above one, so the logarithm is not below zero.
    lemma_logarithm_of_one(l);
    let c = Double { bits: 0x4035_6666_6666_6666 };
    assert(gives(erb_rate_of(r, f), c.value() * log.value()));
    lemma_close_sign(c.value(), 214real / 10real, 1);
    lemma_moderate_product(c.value(), log.value());
    lemma_close_scaled(c.value(), 214real / 10real, log.value(), l(x));
    lemma_close_through(
        erb_rate_of(r, f).value(),
        c.value() * log.value(),
        214real / 10real * l(x),
        1,
        3,
    );
    lemma_close_looser(erb_rate_of(r, f).value(), 214real / 10real * l(x), 5, 6);
}

/// The machine's powers of ten are those of `t`.
pub open spec fn raises_ten<R: Reals>(r: &R, t: spec_fn(real) -> real) -> bool {
    forall|x: Double|
        x.finite() ==> gives(
            #[trigger] r.power_of(Double { bits: 0x4024_0000_0000_0000 }, x),
            t(x.value()),
        )
}

/// The frequency of an ERB-rate undoes the rate's formula: it is ten to the rate over 21.4, less one, over
/// 0.00437.
pub proof fn law_a_rates_frequency_undoes_the_rate<R: Reals>(r: &R, t: spec_fn(real) -> real, e: Double)
    requires
        rounds(r),
        raises_ten(r, t),
        e.finite(),
        0real < e.value(),
        tame(e.value() / (214real / 10real)),
        forall|x: real|
            close(x, e.value() / (214real / 10real), 5) ==> 2real <= #[trigger] t(x) <= 1_000_000_000real,
    ensures
        erb_rate_to_hz_of(r, e).finite(),
        exists|x: real, p: real|
            {
                &&& #[trigger] close(x, e.value() / (214real / 10real), 5)
                &&& #[trigger] close(p, t(x), 1)
                &&& close(erb_rate_to_hz_of(r, e).value(), (p - 1real) / (437real / 100_000real), 6)
            },
{
    lemma_scale_constants();
    lemma_small_numbers();
    let (c, s) = (Double { bits: 0x4035_6666_6666_6666 }, Double { bits: 0x3f71_e646_f156_1911 });
    lemma_close_to_itself(e.value(), 0);
    lemma_over(r, e, c, e.value(), 214real / 10real, 0, 1);
    let x = r.over_of(e, c);
    let ten = Double { bits: 0x4024_0000_0000_0000 };
    let p = r.power_of(ten, x);
    assert(close(x.value(), e.value() / (214real / 10real), 5));
    assert(gives(p, t(x.value())));
    lemma_close_sign(p.value(), t(x.value()), 1);
    let one = Double { bits: 0x3ff0_0000_0000_0000 };
    let d = p.value() - 1real;
    assert(tame(d));
    let m = r.minus_of(p, one);
    assert(gives(m, d));
    assert(d / (437real / 100_000real) == d * (100_000real / 437real));
    lemma_over(r, m, s, d, 437real / 100_000real, 1, 1);
    assert(close(p.value(), t(x.value()), 1));
}

} // verus!
