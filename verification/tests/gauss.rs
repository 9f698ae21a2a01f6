//! Gaussian envelopes and atoms.

use rmp::atom::GaussianParams;
use rmp::dict::FofError;
use rmp::gauss::{envelope_f32, settled_f32, Carrier};
use rmp::ieee::{Double, Single};
use rmp::reals::{Elementary, Reals};

const SR: f32 = 48_000.0;

fn d(x: f64) -> Double {
    Double { bits: x.to_bits() }
}

fn f(x: f32) -> Single {
    Single { bits: x.to_bits() }
}

fn v(x: Single) -> f32 {
    f32::from_bits(x.bits)
}

fn w(x: Double) -> f64 {
    f64::from_bits(x.bits)
}

/// The machine's own arithmetic.
fn reals() -> impl Reals + Sync {
    Elementary {
        plus: |a: Double, b: Double| d(w(a) + w(b)),
        minus: |a: Double, b: Double| d(w(a) - w(b)),
        times: |a: Double, b: Double| d(w(a) * w(b)),
        over: |a: Double, b: Double| d(w(a) / w(b)),
        root: |x: Double| d(w(x).sqrt()),
        exp: |x: Double| d(w(x).exp()),
        ln: |x: Double| d(w(x).ln()),
        log10: |x: Double| d(w(x).log10()),
        power: |a: Double, b: Double| d(w(a).powf(w(b))),
        sine: |x: Double| d(w(x).sin()),
        cosine: |x: Double| d(w(x).cos()),
        hypot: |a: Double, b: Double| d(w(a).hypot(w(b))),
        angle: |y: Double, x: Double| d(w(y).atan2(w(x))),
        floor: |x: Double| d(w(x).floor()),
        ceil: |x: Double| d(w(x).ceil()),
        round: |x: Double| d(w(x).round()),
        widen: |x: Single| d(v(x) as f64),
        narrow: |x: Double| f(w(x) as f32),
        count: |n: usize| d(n as f64),
        long: |n: i128| d(n as f64),
        huge: |n: u128| d(n as f64),
        whole: |x: Double| w(x) as usize,
        integer: |x: Double| w(x) as i64,
        byte: |x: Double| w(x) as u8,
        plus_single: |a: Single, b: Single| f(v(a) + v(b)),
        minus_single: |a: Single, b: Single| f(v(a) - v(b)),
        times_single: |a: Single, b: Single| f(v(a) * v(b)),
        over_single: |a: Single, b: Single| f(v(a) / v(b)),
        root_single: |x: Single| f(v(x).sqrt()),
        exp_single: |x: Single| f(v(x).exp()),
        ln_single: |x: Single| f(v(x).ln()),
        floor_single: |x: Single| f(v(x).floor()),
        ceil_single: |x: Single| f(v(x).ceil()),
        round_single: |x: Single| f(v(x).round()),
        count_single: |n: usize| f(n as f32),
        long_single: |n: i128| f(n as f32),
        whole_single: |x: Single| v(x) as usize,
        word_single: |x: Single| v(x) as u32,
        fixed: |x: Double, digits: u8| format!("{:.*}", digits as usize, w(x)),
        signed: |x: Double, digits: u8| format!("{:+.*}", digits as usize, w(x)),
        exponent: |x: Double, digits: u8| format!("{:.*e}", digits as usize, w(x)),
        plain: |x: Double| format!("{}", w(x)),
        plain_single: |x: Single| format!("{}", v(x)),
    }
}

fn half_len(g: GaussianParams, sr: f32) -> usize {
    g.half_len(&reals(), f(sr))
}

fn sigma_samples(g: GaussianParams, sr: f32) -> f64 {
    w(g.sigma_samples(&reals(), f(sr)))
}

fn bandwidth_hz(g: GaussianParams) -> f32 {
    v(g.bandwidth_hz(&reals()))
}

fn new(sigma: f32) -> GaussianParams {
    GaussianParams::new(f(sigma))
}

fn value(n: usize, h: usize, two_s2: f64) -> f64 {
    let d = n as f64 - h as f64;
    (-(d * d) / two_s2).exp()
}

/// A value as it settles, or `None` near a rounding boundary.
fn settled(y: f64) -> Option<f32> {
    settled_f32(&reals(), d(y)).map(v)
}

fn envelope(h: usize, two_s2: f64) -> Vec<f32> {
    envelope_f32(&reals(), h, d(two_s2)).into_iter().map(v).collect()
}

fn render_envelope(p: GaussianParams) -> Result<Vec<f32>, FofError> {
    Ok(p.render_envelope(&reals(), f(SR))?.into_iter().map(v).collect())
}

fn render_into(p: GaussianParams, freq: f32, phi: f32, amp: f32, buf: &mut Vec<f32>) {
    let mut out: Vec<Single> = buf.iter().map(|&x| f(x)).collect();
    let carrier = Carrier { f: f(freq), phi: f(phi), amp: f(amp) };
    p.render_atom_into(&reals(), carrier, f(SR), &mut out);
    *buf = out.into_iter().map(v).collect();
}

/// The formula written out independently, sample by sample.
fn analytic(sigma: f64, cutoff: f64, sr: f64) -> Vec<f64> {
    let s = sigma * sr;
    let mut h = 0i64;
    while (-((h + 1) as f64).powi(2) / (2.0 * s * s)).exp() >= cutoff {
        h += 1;
    }
    (-h..=h).map(|d| (-(d as f64).powi(2) / (2.0 * s * s)).exp()).collect()
}

#[test]
fn the_envelope_is_the_formula() {
    for sigma in [0.0005f32, 0.002, 0.0137, 0.05] {
        let p = new(sigma);
        let got = render_envelope(p).unwrap();
        let want = analytic(sigma as f64, v(p.cutoff_level) as f64, SR as f64);
        assert_eq!(got.len(), want.len(), "sigma={sigma}");
        let err = got.iter().zip(&want).map(|(&g, &w)| (g as f64 - w).abs()).fold(0.0, f64::max);
        assert!(err < 1e-7, "sigma={sigma}: max error {err:.2e}");
    }
}

#[test]
fn the_peak_is_exactly_one_at_the_centre_and_the_envelope_is_symmetric() {
    let p = new(0.004);
    let g = render_envelope(p).unwrap();
    let h = half_len(p, SR);
    assert_eq!(g[h], 1.0);
    assert_eq!(g.iter().cloned().fold(0.0f32, f32::max), 1.0);
    for d in 1..=h {
        assert_eq!(g[h - d], g[h + d], "d={d}");
    }
}

#[test]
fn the_support_ends_at_the_cutoff() {
    for cutoff in [0.01f32, 0.001, 1e-5] {
        let p = GaussianParams { sigma: f(0.003), cutoff_level: f(cutoff) };
        let g = render_envelope(p).unwrap();
        let h = half_len(p, SR);
        let s = sigma_samples(p, SR);
        assert!(g[0] as f64 >= cutoff as f64 * (1.0 - 1e-6), "end sample below the cutoff");
        let beyond = (-((h + 1) as f64).powi(2) / (2.0 * s * s)).exp();
        assert!(beyond < cutoff as f64, "one more sample would still be above the cutoff");
    }
}

#[test]
fn the_atom_is_linear_in_amp_and_overwrites_its_buffer() {
    let p = new(0.002);
    let n = p.support_len(&reals(), f(SR));
    let mut unit = vec![0.0f32; n];
    render_into(p, 700.0, 0.3, 1.0, &mut unit);
    for a in [0.25f32, -1.5] {
        let mut scaled = vec![9.0f32; n + 10];
        render_into(p, 700.0, 0.3, a, &mut scaled);
        assert!(scaled[n..].iter().all(|&x| x == 0.0), "stale samples past the support");
        let err = unit.iter().zip(&scaled).map(|(&u, &s)| (s - a * u).abs()).fold(0.0, f32::max);
        assert!(err < 1e-6, "amp={a}: {err:.2e}");
    }
}

#[test]
fn the_bandwidth_is_the_half_power_width_of_the_spectrum() {
    let p = new(0.005);
    let half = bandwidth_hz(p) as f64 / 2.0;
    let sigma = v(p.sigma) as f64;
    let power = (-4.0 * std::f64::consts::PI.powi(2) * sigma * sigma * half * half).exp();
    assert!((power - 0.5).abs() < 1e-6, "power at the edge {power}");
}

/// The per-sample definition, written out.
fn envelope_by_definition(p: GaussianParams) -> Vec<f32> {
    let h = half_len(p, SR);
    let s = sigma_samples(p, SR);
    (0..2 * h + 1).map(|n| value(n, h, 2.0 * s * s) as f32).collect()
}

#[test]
fn the_vectorised_envelope_is_the_formula_to_the_bit() {
    for sigma in [0.0005f32, 0.00123, 0.006, 0.0137, 0.04, 0.1, 0.25, 0.6] {
        for cutoff in [0.1f32, 0.001, 1e-7] {
            let p = GaussianParams { sigma: f(sigma), cutoff_level: f(cutoff) };
            let got = render_envelope(p).unwrap();
            let want = envelope_by_definition(p);
            assert_eq!(got.len(), want.len());
            for (n, (g, w)) in got.iter().zip(&want).enumerate() {
                assert_eq!(g.to_bits(), w.to_bits(), "sigma {sigma}, cutoff {cutoff}, n {n}");
            }
        }
    }
}

#[test]
fn the_vectorised_atom_render_is_the_formula_to_the_bit() {
    for (sigma, freq, phi, amp) in [
        (0.0021f32, 440.0f32, 0.0f32, 1.0f32),
        (0.015, 1234.5, -2.9, 0.031),
        (0.1, 90.25, 1.3, -7.5),
        (0.6, 3999.0, 3.1, 1e-4),
    ] {
        let p = new(sigma);
        let h = half_len(p, SR);
        let s = sigma_samples(p, SR);
        let two_s2 = 2.0 * s * s;
        let omega = std::f64::consts::TAU * freq as f64 / SR as f64;
        for len in [2 * h + 18, h + 3] {
            let mut got = vec![5.0f32; len];
            render_into(p, freq, phi, amp, &mut got);
            for (n, &g) in got.iter().enumerate() {
                let want = if n < 2 * h + 1 {
                    let carrier = (phi as f64 + omega * n as f64).sin();
                    (amp as f64 * value(n, h, two_s2) * carrier) as f32
                } else {
                    0.0
                };
                assert_eq!(g.to_bits(), want.to_bits(), "sigma {sigma}, len {len}, n {n}");
            }
        }
    }
}

#[test]
fn a_value_near_a_rounding_boundary_is_not_settled() {
    let a = 0.7f32;
    let midpoint = (a as f64 + f32::from_bits(a.to_bits() + 1) as f64) / 2.0;
    assert_eq!(settled(midpoint), None);
    assert_eq!(settled(-midpoint), None);
    assert_eq!(settled(midpoint * (1.0 + 1e-14)), None);
    assert_eq!(settled(a as f64), Some(a));
    assert_eq!(settled(-(a as f64)), Some(-a));
    assert_eq!(settled(0.0), Some(0.0));
}

/// The samples nearest a rounding boundary are the formula's too.
#[test]
fn the_guard_holds_on_the_samples_where_it_matters() {
    for (bits, hit) in [
        (0x41c0_f256_cd0b_8b9eu64, 36_076usize),
        (0x4138_ddf1_28aa_593a, 1_928),
    ] {
        let two_s2 = f64::from_bits(bits);
        let h = hit + 6;
        let out = envelope(h, two_s2);
        for d in 0..=h {
            let x = d as f64;
            let want = ((-(x * x) / two_s2).exp() as f32).to_bits();
            assert_eq!(out[h + d].to_bits(), want, "after the peak, d = {d}");
            assert_eq!(out[h - d].to_bits(), want, "before the peak, d = {d}");
        }
        let y = (-(hit as f64 * hit as f64) / two_s2).exp();
        assert!(settled(y).is_none_or(|g| g == y as f32), "what settles is the exact rounding");
    }
}

#[test]
fn unusable_parameters_are_rejected() {
    let validate = |p: GaussianParams| p.validate(&reals(), f(SR));
    assert!(validate(new(0.0)).is_err());
    assert!(validate(new(f32::NAN)).is_err());
    assert!(validate(GaussianParams { sigma: f(0.01), cutoff_level: f(1.0) }).is_err());
    assert!(validate(GaussianParams { sigma: f(0.01), cutoff_level: f(0.0) }).is_err());
    assert!(validate(new(1e-6)).is_err());
    assert!(validate(new(0.001)).is_ok());
}

#[test]
fn a_refused_gaussian_says_why() {
    let why = |p: GaussianParams, sr: f32| p.validate(&reals(), f(sr)).unwrap_err().message();
    assert_eq!(why(new(-1.0), SR), "gaussian sigma must be > 0 and finite");
    assert_eq!(
        why(GaussianParams { sigma: f(0.01), cutoff_level: f(2.0) }, SR),
        "gaussian cutoff_level must be in (0, 1)"
    );
    assert_eq!(why(new(0.01), 0.0), "sample_rate must be > 0");
    assert_eq!(why(new(1e-6), SR), "gaussian sigma is too short for a 3-sample support");
}
