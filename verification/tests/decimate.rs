//! Decimation.

use rmp::decimate::Decimator;
use rmp::ieee::{Double, Single};
use rmp::reals::{Elementary, Reals};

const SR: f32 = 48_000.0;
const GUARD_HZ: f64 = 150.0;
const MIN_TRANSITION_HZ: f64 = 800.0;

fn d(x: f64) -> Double {
    Double { bits: x.to_bits() }
}

fn f(x: f32) -> Single {
    Single { bits: x.to_bits() }
}

fn v(x: Single) -> f32 {
    f32::from_bits(x.bits)
}

fn w(x: Double) -> f64 {
    f64::from_bits(x.bits)
}

/// The machine's own arithmetic.
fn reals() -> impl Reals + Sync {
    Elementary {
        plus: |a: Double, b: Double| d(w(a) + w(b)),
        minus: |a: Double, b: Double| d(w(a) - w(b)),
        times: |a: Double, b: Double| d(w(a) * w(b)),
        over: |a: Double, b: Double| d(w(a) / w(b)),
        root: |x: Double| d(w(x).sqrt()),
        exp: |x: Double| d(w(x).exp()),
        ln: |x: Double| d(w(x).ln()),
        log10: |x: Double| d(w(x).log10()),
        power: |a: Double, b: Double| d(w(a).powf(w(b))),
        sine: |x: Double| d(w(x).sin()),
        cosine: |x: Double| d(w(x).cos()),
        hypot: |a: Double, b: Double| d(w(a).hypot(w(b))),
        angle: |y: Double, x: Double| d(w(y).atan2(w(x))),
        floor: |x: Double| d(w(x).floor()),
        ceil: |x: Double| d(w(x).ceil()),
        round: |x: Double| d(w(x).round()),
        widen: |x: Single| d(v(x) as f64),
        narrow: |x: Double| f(w(x) as f32),
        count: |n: usize| d(n as f64),
        long: |n: i128| d(n as f64),
        huge: |n: u128| d(n as f64),
        whole: |x: Double| w(x) as usize,
        integer: |x: Double| w(x) as i64,
        byte: |x: Double| w(x) as u8,
        plus_single: |a: Single, b: Single| f(v(a) + v(b)),
        minus_single: |a: Single, b: Single| f(v(a) - v(b)),
        times_single: |a: Single, b: Single| f(v(a) * v(b)),
        over_single: |a: Single, b: Single| f(v(a) / v(b)),
        root_single: |x: Single| f(v(x).sqrt()),
        exp_single: |x: Single| f(v(x).exp()),
        ln_single: |x: Single| f(v(x).ln()),
        floor_single: |x: Single| f(v(x).floor()),
        ceil_single: |x: Single| f(v(x).ceil()),
        round_single: |x: Single| f(v(x).round()),
        count_single: |n: usize| f(n as f32),
        long_single: |n: i128| f(n as f32),
        whole_single: |x: Single| v(x) as usize,
        word_single: |x: Single| v(x) as u32,
        fixed: |x: Double, digits: u8| format!("{:.*}", digits as usize, w(x)),
        signed: |x: Double, digits: u8| format!("{:+.*}", digits as usize, w(x)),
        exponent: |x: Double, digits: u8| format!("{:.*e}", digits as usize, w(x)),
        plain: |x: Double| format!("{}", w(x)),
        plain_single: |x: Single| format!("{}", v(x)),
    }
}

fn factor_for(f_max: f32) -> Option<usize> {
    Decimator::factor_for(&reals(), f(SR), f(f_max))
}

fn design(f_max: f32) -> Option<Decimator> {
    Decimator::design(&reals(), f(SR), f(f_max))
}

fn response(dec: &Decimator, freq: f64) -> f64 {
    w(dec.response(&reals(), d(freq), f(SR)))
}

#[test]
fn the_factor_leaves_every_alias_in_the_stopband() {
    assert_eq!(factor_for(3000.0), Some(6));
    assert_eq!(factor_for(5000.0), Some(4));
    assert_eq!(factor_for(10_000.0), Some(2));
    assert_eq!(factor_for(20_000.0), None);
    for f_max in [1000.0f32, 3000.0, 5000.0, 10_000.0] {
        let factor = factor_for(f_max).unwrap();
        let f_stop = SR as f64 / factor as f64 - f_max as f64 - GUARD_HZ;
        assert!(f_stop - (f_max as f64 + GUARD_HZ) >= MIN_TRANSITION_HZ);
    }
}

#[test]
fn the_filter_meets_its_specification() {
    for f_max in [3000.0f32, 5000.0] {
        let dec = design(f_max).unwrap();
        let ripple = 10f64.powf(-w(dec.attenuation_db) / 20.0) * 4.0;
        let mut freq = 0.0;
        while freq <= w(dec.f_pass) {
            let h = response(&dec, freq);
            assert!((h - 1.0).abs() < ripple, "f_max {f_max}: passband {freq} Hz gain {h}");
            freq += 10.0;
        }
        let floor = 10f64.powf(-(w(dec.attenuation_db) - 3.0) / 20.0);
        let mut freq = w(dec.f_stop);
        while freq <= SR as f64 / 2.0 {
            let h = response(&dec, freq).abs();
            assert!(h < floor, "f_max {f_max}: stopband {freq} Hz gain {h:.2e}");
            freq += 10.0;
        }
        // A constant passes unchanged where the whole filter fits.
        let ones = vec![f(1.0); 4 * dec.half];
        let out = dec.apply(&reals(), &ones);
        let m = 2 * dec.half / dec.factor;
        assert!((v(out[m]) - 1.0).abs() < 1e-5, "{}", v(out[m]));
    }
}

#[test]
fn a_partial_update_equals_filtering_everything_again() {
    let dec = design(3000.0).unwrap();
    let mut s = 0x2545_f491_4f6c_dd1du64;
    let mut residual: Vec<Single> = (0..20_000)
        .map(|_| {
            s ^= s << 13;
            s ^= s >> 7;
            s ^= s << 17;
            f((s >> 40) as f32 / 8_388_608.0 - 1.0)
        })
        .collect();
    let mut low = dec.apply(&reals(), &residual);
    assert_eq!(low.len(), dec.output_len(residual.len()));
    for (start, end) in [(0usize, 50usize), (7_001, 9_333), (19_900, 20_000)] {
        for x in &mut residual[start..end] {
            *x = f(v(*x) * -0.5);
        }
        let before = low.clone();
        let (lo, hi) = dec.affected(start, end, low.len());
        dec.update(&reals(), &residual, &mut low, lo, hi);
        assert_ne!(low, before);
        let fresh = dec.apply(&reals(), &residual);
        assert_eq!(low.len(), fresh.len());
        for (m, (a, b)) in low.iter().zip(&fresh).enumerate() {
            assert_eq!(a.bits, b.bits, "after [{start}, {end}), m = {m}");
        }
    }
}

#[test]
fn the_decimated_length_is_rounded_up() {
    let dec = design(3000.0).unwrap();
    for (len, want) in [(0, 0), (1, 1), (6, 1), (7, 2), (20_000, 3_334)] {
        assert_eq!(dec.output_len(len), want, "{len}");
    }
}
