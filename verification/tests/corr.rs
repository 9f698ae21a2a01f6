//! Correlation and projection.

use realfft::RealFftPlanner;
use rmp::arith::Rendered;
use rmp::atom::{AtomParams, Envelope, EnvelopeParams, Shape};
use rmp::corr::{atom, project, project_energy, strongest, Correlator, Projection};
use rmp::dict::{voice_grid, Bin, Block, BlockConfig, ReleasePolicy};
use rmp::ieee::{Double, Single};
use rmp::reals::{Elementary, Reals};
use std::f64::consts::TAU;

const SR: f32 = 48_000.0;

fn d(x: f64) -> Double {
    Double { bits: x.to_bits() }
}

fn f(x: f32) -> Single {
    Single { bits: x.to_bits() }
}

fn v(x: Single) -> f32 {
    f32::from_bits(x.bits)
}

fn w(x: Double) -> f64 {
    f64::from_bits(x.bits)
}

/// The machine's own arithmetic.
fn reals() -> impl Reals + Sync {
    Elementary {
        plus: |a: Double, b: Double| d(w(a) + w(b)),
        minus: |a: Double, b: Double| d(w(a) - w(b)),
        times: |a: Double, b: Double| d(w(a) * w(b)),
        over: |a: Double, b: Double| d(w(a) / w(b)),
        root: |x: Double| d(w(x).sqrt()),
        exp: |x: Double| d(w(x).exp()),
        ln: |x: Double| d(w(x).ln()),
        log10: |x: Double| d(w(x).log10()),
        power: |a: Double, b: Double| d(w(a).powf(w(b))),
        sine: |x: Double| d(w(x).sin()),
        cosine: |x: Double| d(w(x).cos()),
        hypot: |a: Double, b: Double| d(w(a).hypot(w(b))),
        angle: |y: Double, x: Double| d(w(y).atan2(w(x))),
        floor: |x: Double| d(w(x).floor()),
        ceil: |x: Double| d(w(x).ceil()),
        round: |x: Double| d(w(x).round()),
        widen: |x: Single| d(v(x) as f64),
        narrow: |x: Double| f(w(x) as f32),
        count: |n: usize| d(n as f64),
        long: |n: i128| d(n as f64),
        huge: |n: u128| d(n as f64),
        whole: |x: Double| w(x) as usize,
        integer: |x: Double| w(x) as i64,
        byte: |x: Double| w(x) as u8,
        plus_single: |a: Single, b: Single| f(v(a) + v(b)),
        minus_single: |a: Single, b: Single| f(v(a) - v(b)),
        times_single: |a: Single, b: Single| f(v(a) * v(b)),
        over_single: |a: Single, b: Single| f(v(a) / v(b)),
        root_single: |x: Single| f(v(x).sqrt()),
        exp_single: |x: Single| f(v(x).exp()),
        ln_single: |x: Single| f(v(x).ln()),
        floor_single: |x: Single| f(v(x).floor()),
        ceil_single: |x: Single| f(v(x).ceil()),
        round_single: |x: Single| f(v(x).round()),
        count_single: |n: usize| f(n as f32),
        long_single: |n: i128| f(n as f32),
        whole_single: |x: Single| v(x) as usize,
        word_single: |x: Single| v(x) as u32,
        fixed: |x: Double, digits: u8| format!("{:.*}", digits as usize, w(x)),
        signed: |x: Double, digits: u8| format!("{:+.*}", digits as usize, w(x)),
        exponent: |x: Double, digits: u8| format!("{:.*e}", digits as usize, w(x)),
        plain: |x: Double| format!("{}", w(x)),
        plain_single: |x: Single| format!("{}", v(x)),
    }
}

/// A FOF's envelope, normalised to its peak: a raised-cosine attack over a decay, and a linear
/// release from where the decay has fallen to the release level. Beside it, where the release begins.
fn fof_envelope(p: EnvelopeParams, sr: f32) -> (Vec<f32>, usize) {
    let (alpha, beta) = (v(p.alpha) as f64, v(p.beta) as f64);
    let raw = |t: f64| {
        let attack = if t < beta { 0.5 * (1.0 - (std::f64::consts::PI * t / beta).cos()) } else { 1.0 };
        attack * (-alpha * t).exp()
    };
    let dt = 1.0 / sr as f64;
    let reach = (-(v(p.fade_level) as f64).ln() / alpha).max(beta) + beta;
    let body = (reach / dt).ceil() as usize;
    let peak = (0..body).map(|n| raw(n as f64 * dt)).fold(0.0, f64::max);
    let start = (0..body)
        .rev()
        .find(|&n| raw(n as f64 * dt) >= peak * v(p.fade_level) as f64)
        .map_or(0, |n| n + 1);
    let release = (v(p.fade_dur) as f64 / dt).round().max(1.0) as usize;
    let env = (0..start + release)
        .map(|n| {
            let fade = if n < start { 1.0 } else { 1.0 - (n - start) as f64 / release as f64 };
            (fade * raw(n as f64 * dt) / peak) as f32
        })
        .collect();
    (env, start)
}

fn rendered(shape: Shape, sr: f32) -> Rendered {
    let (samples, cut) = match shape {
        Shape::Fof(p) => fof_envelope(p, sr),
        Shape::Gaussian(g) => {
            let env: Vec<f32> =
                g.render_envelope(&reals(), f(sr)).unwrap().into_iter().map(v).collect();
            let cut = env.len();
            (env, cut)
        }
    };
    let samples = samples.into_iter().map(f).collect();
    Rendered { env: Envelope::of_samples(&reals(), shape, f(sr), samples), cut }
}

fn render_atom(a: &AtomParams, sr: f32) -> Vec<f32> {
    let e = rendered(a.env, sr).env;
    let omega = std::f64::consts::TAU * v(a.f) as f64 / sr as f64;
    let carrier = |n: usize| (v(a.phi) as f64 + omega * n as f64).sin();
    let amp = v(a.amp) as f64;
    e.samples.iter().enumerate().map(|(n, &x)| (amp * v(x) as f64 * carrier(n)) as f32).collect()
}

/// The Gram of an envelope's quadratures, and a signal's correlation with them.
fn sums(env: &[Single], sig: &[f32], t0: i64, omega: f64) -> ([f64; 3], [f64; 2]) {
    let (mut g, mut c) = ([0.0; 3], [0.0; 2]);
    for (n, &e) in env.iter().enumerate() {
        let (s, k) = (omega * n as f64).sin_cos();
        let (u, x) = (v(e) as f64 * s, v(e) as f64 * k);
        g[0] += u * u;
        g[1] += u * x;
        g[2] += x * x;
        let t = t0 + n as i64;
        if t >= 0 && (t as usize) < sig.len() {
            c[0] += u * sig[t as usize] as f64;
            c[1] += x * sig[t as usize] as f64;
        }
    }
    (g, c)
}

/// A real transform.
fn transform(x: Vec<Single>) -> Vec<Bin> {
    let plan = RealFftPlanner::<f32>::new().plan_fft_forward(x.len());
    let mut input: Vec<f32> = x.into_iter().map(v).collect();
    let mut spectrum = plan.make_output_vec();
    plan.process(&mut input, &mut spectrum).unwrap();
    spectrum.iter().map(|c| Bin { re: f(c.re), im: f(c.im) }).collect()
}

fn block_config(tol: f64, f_min: f32, f_max: f32) -> BlockConfig {
    BlockConfig {
        capture_tol: d(tol),
        f_min: f(f_min),
        f_max: f(f_max),
        rho_sq_max: f(1.0 - 1e-4),
        release: ReleasePolicy {
            fade_level: f(1e-3),
            fade_dur_scale: f(0.5),
            fade_dur_min: f(0.001),
            fade_dur_max: f(0.02),
        },
    }
}

fn built(shape: Shape, sr: f32, tol: f64, f_min: f32, f_max: f32) -> Block {
    let cfg = block_config(tol, f_min, f_max);
    Block::new(&reals(), rendered(shape, sr).env, &cfg, &transform).unwrap()
}

fn bin_hz(b: &Block, k: usize) -> f32 {
    v(b.bin_hz(&reals(), k))
}

fn block(alpha: f32, beta: f32) -> Block {
    let shape = Shape::Fof(EnvelopeParams {
        alpha: f(alpha),
        beta: f(beta),
        fade_level: f(1e-3),
        fade_dur: f((0.5 / alpha).clamp(0.001, 0.02)),
    });
    built(shape, SR, 0.95, 50.0, 10_000.0)
}

fn xorshift(state: &mut u64) -> f32 {
    *state ^= *state << 13;
    *state ^= *state >> 7;
    *state ^= *state << 17;
    (*state >> 40) as f32 / 8_388_608.0 - 1.0
}

fn noise(len: usize, mut seed: u64) -> Vec<Single> {
    (0..len).map(|_| f(xorshift(&mut seed))).collect()
}

type Frame = Correlator<fn(Vec<Single>) -> Vec<Bin>>;

/// The frame at `onset`, correlated.
fn correlated(b: &Block, sig: &[Single], onset: usize) -> Frame {
    let mut c = Correlator::new(b.fft_len, transform as fn(Vec<Single>) -> Vec<Bin>);
    c.correlate(&reals(), b, sig, onset);
    c
}

fn at(frame: &Frame, k: usize) -> (f32, f32) {
    let (d_u, d_v) = frame.at(k);
    (v(d_u), v(d_v))
}

fn projection(b: &Block, k: usize, d_u: f32, d_v: f32) -> Projection {
    let p = project(&reals(), b, k, f(d_u), f(d_v));
    assert_eq!(project_energy(&reals(), b, k, f(d_u), f(d_v)), p.energy);
    p
}

fn best(b: &Block, frame: &Frame) -> (usize, Projection) {
    frame.best_bin(&reals(), b)
}

#[test]
fn frame_fft_matches_direct_correlation() {
    let b = block(251.0, 0.002);
    let sig = noise(b.fft_len * 2, 0xdead_beef_cafe_1234);
    let frame = correlated(&b, &sig, 17);
    let scale = b.env.samples.iter().map(|&x| v(x).abs() as f64).sum::<f64>().max(1.0);
    let mut worst = 0.0f64;
    for k in [b.k_lo, b.k_lo + 3, b.fft_len / 4, b.fft_len / 3, b.k_hi] {
        if k < b.k_lo || k > b.k_hi {
            continue;
        }
        let plain: Vec<f32> = sig.iter().map(|&x| v(x)).collect();
        let omega = TAU * k as f64 / b.fft_len as f64;
        let (_, [du, dv]) = sums(&b.env.samples, &plain, 17, omega);
        let (gu, gv) = at(&frame, k);
        worst = worst.max((gu as f64 - du).abs() / scale);
        worst = worst.max((gv as f64 - dv).abs() / scale);
    }
    assert!(worst < 1e-5, "worst correlation error {worst:.3e}");
}

/// A signal that is one basis vector correlates to its own energy, and to its product with the other.
#[test]
fn self_correlation_pins_both_sign_conventions() {
    let b = block(251.0, 0.002);
    // A low bin, where the two are substantially alike.
    let k = b.k_lo;
    let omega = TAU * k as f64 / b.fft_len as f64;
    let u: Vec<Single> = (0..b.fft_len)
        .map(|t| {
            let e = b.env.samples.get(t).map_or(0.0, |&x| v(x));
            f(e * (omega * t as f64).sin() as f32)
        })
        .collect();
    let (d_u, d_v) = at(&correlated(&b, &u, 0), k);
    let ([uu, uv, _], _) = sums(&b.env.samples, &[], 0, omega);
    assert!((d_u as f64 - uu).abs() / uu < 1e-4, "d_u {d_u} != <u,u> {uu}");
    assert!((d_v as f64 - uv).abs() / uu < 1e-4, "d_v {d_v} != <u,v> {uv}");
}

#[test]
fn projection_matches_brute_force_over_phi() {
    let b = block(251.0, 0.002);
    let sig = noise(b.fft_len, 0x0123_4567_89ab_cdef);
    let frame = correlated(&b, &sig, 0);
    for k in [b.k_lo, b.k_lo + 2, b.fft_len / 4, b.k_hi] {
        if b.gram_inv(k).is_none() {
            continue;
        }
        let (d_u, d_v) = at(&frame, k);
        let got = w(projection(&b, k, d_u, d_v).energy);
        let omega = TAU * k as f64 / b.fft_len as f64;
        let ([uu, uv, vv], _) = sums(&b.env.samples, &[], 0, omega);
        let (du, dv) = (d_u as f64, d_v as f64);
        let mut best = 0.0f64;
        let steps = 100_000;
        for i in 0..steps {
            let (c2, c1) = (TAU * i as f64 / steps as f64).sin_cos();
            let den = c1 * c1 * uu + 2.0 * c1 * c2 * uv + c2 * c2 * vv;
            if den > 1e-18 {
                best = best.max((c1 * du + c2 * dv).powi(2) / den);
            }
        }
        let rel = (got - best).abs() / best.max(1e-12);
        assert!(rel < 1e-4, "k={k}: closed form {got} vs brute force {best}");
    }
}

/// Subtracting the projected atom removes exactly the energy projected.
#[test]
fn projection_energy_equals_measured_energy_removed() {
    let b = block(251.0, 0.002);
    let sig = noise(b.fft_len, 0xfeed_face_0000_1111);
    let k = b.fft_len / 6;
    let (d_u, d_v) = at(&correlated(&b, &sig, 0), k);
    let p = projection(&b, k, d_u, d_v);
    let omega = TAU * k as f64 / b.fft_len as f64;
    let before: f64 = sig.iter().map(|&s| (v(s) as f64).powi(2)).sum();
    let after: f64 = (0..b.fft_len)
        .map(|t| {
            let e = b.env.samples.get(t).map_or(0.0, |&x| v(x) as f64);
            let atom = v(p.amp) as f64 * e * (omega * t as f64 + v(p.phi) as f64).sin();
            (v(sig[t]) as f64 - atom).powi(2)
        })
        .sum();
    let (removed, energy) = (before - after, w(p.energy));
    assert!((removed - energy).abs() / energy < 1e-3, "energy removed {removed} != projected {energy}");
}

#[test]
fn planted_atom_is_found_at_its_own_bin() {
    let b = block(251.0, 0.002);
    let k_true = b.fft_len / 8;
    let want = AtomParams {
        t0: 0,
        f: f(bin_hz(&b, k_true)),
        env: b.env.params,
        phi: f(0.9),
        amp: f(0.6),
    };
    let sig: Vec<Single> = render_atom(&want, SR).into_iter().map(f).collect();
    let (k, p) = best(&b, &correlated(&b, &sig, 0));
    assert_eq!(k, k_true, "selected bin {k}, planted at {k_true}");
    assert!((v(p.amp) - v(want.amp)).abs() < 0.02, "amp {} vs {}", v(p.amp), v(want.amp));
    let dphi = (v(p.phi) - v(want.phi)).rem_euclid(std::f32::consts::TAU);
    let dphi = dphi.min(std::f32::consts::TAU - dphi);
    assert!(dphi < 0.05, "phi {} vs {} (diff {dphi})", v(p.phi), v(want.phi));

    let found = atom(&reals(), &b, 0, k, p);
    assert_eq!((found.t0, found.f, found.env), (want.t0, want.f, want.env));
    assert_eq!((found.amp, found.phi), (p.amp, p.phi));
}

#[test]
fn disabled_bins_project_to_zero() {
    let b = block(251.0, 0.002);
    assert_eq!(projection(&b, 0, 1.0, 1.0), Projection::zero());
    assert_eq!(projection(&b, b.fft_len / 2, 1.0, 1.0), Projection::zero());
    assert_eq!(projection(&b, b.k_hi + 1, 1.0, 1.0), Projection::zero());
}

#[test]
fn amplitude_is_never_negative() {
    let b = block(251.0, 0.002);
    let k = b.fft_len / 7;
    for (du, dv) in [(1.0, 1.0), (-1.0, 1.0), (1.0, -1.0), (-1.0, -1.0)] {
        let p = projection(&b, k, du, dv);
        assert!(v(p.amp) >= 0.0, "amp {} is negative for d=({du},{dv})", v(p.amp));
        assert!(w(p.energy) >= 0.0);
    }
}

#[test]
fn correlator_works_for_every_block_in_the_voice_dictionary() {
    let sig = noise(8192, 0xaaaa_bbbb_cccc_dddd);
    for (alpha, beta) in voice_grid() {
        if v(alpha) * v(beta) > 4.0 {
            continue;
        }
        let b = block(v(alpha), v(beta));
        let (k, p) = best(&b, &correlated(&b, &sig, 0));
        assert!(b.gram_inv(k).is_some(), "winning bin {k} is disabled");
        assert!(w(p.energy).is_finite() && w(p.energy) >= 0.0);
        assert!(v(p.amp).is_finite() && v(p.phi).is_finite());
    }
}

/// Trailing frames read zeros past the signal, and a frame past its end is silent.
#[test]
fn frames_past_the_end_are_padded() {
    let sig: Vec<Single> = (1..=5).map(|x| f(x as f32)).collect();
    let env = [f(1.0), f(0.5), f(0.25)];
    // What is transformed comes back as it went in.
    let echo = |x: Vec<Single>| x.into_iter().take(3).map(|re| Bin { re, im: f(0.0) }).collect();
    let run = |start: usize, decimation: usize| {
        let mut c = Correlator::new(4, echo);
        c.correlate_decimated(&reals(), &env, decimation, &sig, start, 4);
        c.spectrum.iter().map(|b| v(b.re)).collect::<Vec<f32>>()
    };
    assert_eq!(run(0, 1), vec![1.0, 1.0, 0.75]);
    assert_eq!(run(4, 1), vec![5.0, 0.0, 0.0]);
    assert_eq!(run(9, 1), vec![0.0; 3]);
    // A decimated frame starts at its onset over the factor.
    assert_eq!(run(24, 6), run(4, 1));
}

#[test]
fn the_lowest_bin_wins_a_tie_and_silence_reports_the_first() {
    assert_eq!(strongest(5, &[d(0.0), d(2.0), d(1.0), d(2.0)]), (6, true));
    assert_eq!(strongest(5, &[d(0.0), d(-1.0), d(f64::NAN)]), (5, false));
    assert_eq!(strongest(5, &[]), (5, false));
    let b = block(251.0, 0.002);
    assert_eq!(best(&b, &correlated(&b, &[f(0.0); 16], 0)), (b.k_lo, Projection::zero()));
}
