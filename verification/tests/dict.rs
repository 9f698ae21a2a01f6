//! Dictionaries and their blocks.

use realfft::RealFftPlanner;
use rmp::arith::Rendered;
use rmp::atom::{Envelope, EnvelopeParams, GaussianParams, Shape};
use rmp::dict::{
    envelope_capture, fof_grid, fold_e2_bin, gram_bin, measure_hop, next_fast_len,
    voice_grid, Bin, Block, BlockConfig, Dictionary, FofError, GramBin, ReleasePolicy,
};
use rmp::ieee::{Double, Single};
use rmp::notation::{Notation, Written};
use rmp::reals::{Elementary, Reals};
use rmp::units::Converted;

const SR: f32 = 48_000.0;

fn d(x: f64) -> Double {
    Double { bits: x.to_bits() }
}

fn f(x: f32) -> Single {
    Single { bits: x.to_bits() }
}

fn v(x: Single) -> f32 {
    f32::from_bits(x.bits)
}

fn w(x: Double) -> f64 {
    f64::from_bits(x.bits)
}

/// The machine's own arithmetic.
fn reals() -> impl Reals + Sync {
    Elementary {
        plus: |a: Double, b: Double| d(w(a) + w(b)),
        minus: |a: Double, b: Double| d(w(a) - w(b)),
        times: |a: Double, b: Double| d(w(a) * w(b)),
        over: |a: Double, b: Double| d(w(a) / w(b)),
        root: |x: Double| d(w(x).sqrt()),
        exp: |x: Double| d(w(x).exp()),
        ln: |x: Double| d(w(x).ln()),
        log10: |x: Double| d(w(x).log10()),
        power: |a: Double, b: Double| d(w(a).powf(w(b))),
        sine: |x: Double| d(w(x).sin()),
        cosine: |x: Double| d(w(x).cos()),
        hypot: |a: Double, b: Double| d(w(a).hypot(w(b))),
        angle: |y: Double, x: Double| d(w(y).atan2(w(x))),
        floor: |x: Double| d(w(x).floor()),
        ceil: |x: Double| d(w(x).ceil()),
        round: |x: Double| d(w(x).round()),
        widen: |x: Single| d(v(x) as f64),
        narrow: |x: Double| f(w(x) as f32),
        count: |n: usize| d(n as f64),
        long: |n: i128| d(n as f64),
        huge: |n: u128| d(n as f64),
        whole: |x: Double| w(x) as usize,
        integer: |x: Double| w(x) as i64,
        byte: |x: Double| w(x) as u8,
        plus_single: |a: Single, b: Single| f(v(a) + v(b)),
        minus_single: |a: Single, b: Single| f(v(a) - v(b)),
        times_single: |a: Single, b: Single| f(v(a) * v(b)),
        over_single: |a: Single, b: Single| f(v(a) / v(b)),
        root_single: |x: Single| f(v(x).sqrt()),
        exp_single: |x: Single| f(v(x).exp()),
        ln_single: |x: Single| f(v(x).ln()),
        floor_single: |x: Single| f(v(x).floor()),
        ceil_single: |x: Single| f(v(x).ceil()),
        round_single: |x: Single| f(v(x).round()),
        count_single: |n: usize| f(n as f32),
        long_single: |n: i128| f(n as f32),
        whole_single: |x: Single| v(x) as usize,
        word_single: |x: Single| v(x) as u32,
        fixed: |x: Double, digits: u8| format!("{:.*}", digits as usize, w(x)),
        signed: |x: Double, digits: u8| format!("{:+.*}", digits as usize, w(x)),
        exponent: |x: Double, digits: u8| format!("{:.*e}", digits as usize, w(x)),
        plain: |x: Double| format!("{}", w(x)),
        plain_single: |x: Single| format!("{}", v(x)),
    }
}

fn notation() -> impl Notation {
    Written { reals: reals() }
}

/// A real transform.
fn transform(x: Vec<Single>) -> Vec<Bin> {
    let plan = RealFftPlanner::<f32>::new().plan_fft_forward(x.len());
    let mut input: Vec<f32> = x.into_iter().map(v).collect();
    let mut spectrum = plan.make_output_vec();
    plan.process(&mut input, &mut spectrum).unwrap();
    spectrum.iter().map(|c| Bin { re: f(c.re), im: f(c.im) }).collect()
}

fn block_config(tol: f64, f_min: f32, f_max: f32) -> BlockConfig {
    BlockConfig {
        capture_tol: d(tol),
        f_min: f(f_min),
        f_max: f(f_max),
        rho_sq_max: f(1.0 - 1e-4),
        release: ReleasePolicy {
            fade_level: f(1e-3),
            fade_dur_scale: f(0.5),
            fade_dur_min: f(0.001),
            fade_dur_max: f(0.02),
        },
    }
}

/// A FOF's envelope, normalised to its peak: a raised-cosine attack over a decay, and a linear
/// release from where the decay has fallen to the release level. Beside it, where the release begins.
fn fof_envelope(p: EnvelopeParams, sr: f32) -> (Vec<f32>, usize) {
    let (alpha, beta) = (v(p.alpha) as f64, v(p.beta) as f64);
    let raw = |t: f64| {
        let attack = if t < beta { 0.5 * (1.0 - (std::f64::consts::PI * t / beta).cos()) } else { 1.0 };
        attack * (-alpha * t).exp()
    };
    let dt = 1.0 / sr as f64;
    let reach = (-(v(p.fade_level) as f64).ln() / alpha).max(beta) + beta;
    let body = (reach / dt).ceil() as usize;
    let peak = (0..body).map(|n| raw(n as f64 * dt)).fold(0.0, f64::max);
    let start = (0..body)
        .rev()
        .find(|&n| raw(n as f64 * dt) >= peak * v(p.fade_level) as f64)
        .map_or(0, |n| n + 1);
    let release = (v(p.fade_dur) as f64 / dt).round().max(1.0) as usize;
    let env = (0..start + release)
        .map(|n| {
            let fade = if n < start { 1.0 } else { 1.0 - (n - start) as f64 / release as f64 };
            (fade * raw(n as f64 * dt) / peak) as f32
        })
        .collect();
    (env, start)
}

fn rendered(shape: Shape, sr: f32) -> Rendered {
    let (samples, cut) = match shape {
        Shape::Fof(p) => fof_envelope(p, sr),
        Shape::Gaussian(g) => {
            let env: Vec<f32> =
                g.render_envelope(&reals(), f(sr)).unwrap().into_iter().map(v).collect();
            let cut = env.len();
            (env, cut)
        }
    };
    let samples = samples.into_iter().map(f).collect();
    Rendered { env: Envelope::of_samples(&reals(), shape, f(sr), samples), cut }
}

/// The Gram of an envelope's quadratures, over a window.
fn gram_direct(env: &[Single], fft_len: usize, k: usize) -> (f64, f64, f64) {
    let w = std::f64::consts::TAU * k as f64 / fft_len as f64;
    let (mut uu, mut vv, mut uv) = (0.0, 0.0, 0.0);
    for t in 0..fft_len {
        let e = env.get(t).map_or(0.0, |&x| v(x) as f64);
        let (s, c) = (w * t as f64).sin_cos();
        uu += (e * s) * (e * s);
        vv += (e * c) * (e * c);
        uv += (e * s) * (e * c);
    }
    (uu, vv, uv)
}

fn try_block(shape: Shape, f_min: f32, f_max: f32) -> Result<Block, FofError> {
    let cfg = block_config(0.95, f_min, f_max);
    Block::new(&reals(), rendered(shape, SR).env, &cfg, &transform)
}

fn fof(alpha: f32, beta: f32) -> Shape {
    Shape::Fof(EnvelopeParams {
        alpha: f(alpha),
        beta: f(beta),
        fade_level: f(1e-3),
        fade_dur: f((0.5 / alpha).clamp(0.001, 0.02)),
    })
}

fn gaussian(sigma: f32) -> Shape {
    Shape::Gaussian(GaussianParams::new(f(sigma)))
}

fn block(alpha: f32, beta: f32) -> Block {
    try_block(fof(alpha, beta), 50.0, 10_000.0).unwrap()
}

fn gauss_block(sigma: f32) -> Block {
    try_block(gaussian(sigma), 50.0, 10_000.0).unwrap()
}

/// A linear search for the offset, doubled.
fn measure_hop_linear(env: &[Single], fft_len: usize, tol: f64) -> usize {
    let r = reals();
    let mut delta = 0;
    while delta < fft_len && w(envelope_capture(&r, env, delta + 1, fft_len)) >= tol {
        delta += 1;
    }
    if delta == 0 { 1 } else { 2 * delta }
}

/// The stored inverse times the direct Gram is the identity.
fn assert_gram_inverse_exact(b: &Block, probes: &[usize]) {
    let mut worst = 0.0f64;
    let mut checked = 0;
    for &k in probes {
        let Some((iuu, iuv, ivv)) = b.gram_inv(k) else {
            continue;
        };
        let (iuu, iuv, ivv) = (v(iuu) as f64, v(iuv) as f64, v(ivv) as f64);
        let (uu, vv, uv) = gram_direct(&b.env.samples, b.fft_len, k);
        let prod =
            [uu * iuu + uv * iuv, uu * iuv + uv * ivv, uv * iuu + vv * iuv, uv * iuv + vv * ivv];
        for (got, want) in prod.iter().zip([1.0, 0.0, 0.0, 1.0]) {
            worst = worst.max((got - want).abs());
        }
        checked += 1;
    }
    assert!(checked >= 3, "only {checked} live bins probed");
    assert!(worst < 1e-3, "G * G_inv deviates from identity by {worst:.3e}");
}

#[test]
fn gram_inverse_matches_direct_sums() {
    let b = block(251.0, 0.002);
    let probes = [b.k_lo, b.k_lo + 1, b.fft_len / 8, b.fft_len / 5, b.k_hi];
    assert_gram_inverse_exact(&b, &probes);
}

/// The fold engages only above a quarter of the rate, so the range is widened to reach both sides.
#[test]
fn gram_inverse_is_exact_across_the_fold_boundary() {
    let b = try_block(fof(251.0, 0.002), 50.0, 20_000.0).unwrap();
    let quarter = b.fft_len / 4;
    let folded: Vec<usize> = (b.k_lo..=b.k_hi).filter(|&k| 2 * k > b.fft_len / 2).collect();
    assert!(folded.len() > 10, "expected many folded bins, got {}", folded.len());
    let probes = [quarter - 1, quarter, quarter + 1, folded[folded.len() / 2], b.k_hi];
    assert_gram_inverse_exact(&b, &probes);
}

#[test]
fn degenerate_bins_are_excluded() {
    let b = block(251.0, 0.002);
    assert!(b.k_lo >= 1, "DC must be excluded");
    assert!(b.k_hi < b.fft_len / 2, "Nyquist must be excluded");
    assert!(b.gram_inv(0).is_none());
    assert!(b.gram_inv(b.fft_len / 2).is_none());
}

#[test]
fn coherence_falls_as_frequency_rises() {
    let b = block(524.0, 0.001);
    let lo = v(b.rho(b.k_lo).unwrap());
    let hi = v(b.rho(b.k_hi).unwrap());
    assert!(lo > hi, "rho should fall with frequency: {lo} -> {hi}");
    assert!(hi < 0.05, "high bins should be nearly orthogonal, got {hi}");
}

#[test]
fn hop_shrinks_as_alpha_grows() {
    let mut prev = usize::MAX;
    for alpha in [80.0f32, 251.0, 524.0, 1342.0] {
        let env = rendered(fof(alpha, 0.0003), SR).env;
        let hop = measure_hop(&reals(), &env.samples, next_fast_len(env.support_len()), d(0.95));
        assert!(hop < prev, "alpha={alpha}: hop {hop} did not fall below {prev}");
        prev = hop;
    }
}

#[test]
fn hop_is_vastly_smaller_than_half_the_window() {
    let b = block(251.0, 0.002);
    assert!(b.hop * 20 < b.fft_len, "hop {} is not far below {}", b.hop, b.fft_len / 2);
}

#[test]
fn hop_search_matches_the_linear_scan() {
    let mut shapes: Vec<(f32, f32)> = Vec::new();
    for a in [80.0f32, 128.0, 205.0, 328.0, 524.0, 839.0, 1342.0, 2147.0] {
        for b in [0.0003f32, 0.001, 0.003] {
            shapes.push((a, b));
        }
    }
    for a in [1.0f32, 2.0, 4.0, 16.0, 64.0, 256.0] {
        for b in [0.0003f32, 0.001, 0.003, 0.012] {
            shapes.push((a, b));
        }
    }
    for (alpha, beta) in shapes {
        if alpha * beta > 4.0 {
            continue;
        }
        // Slow decays at a reduced rate, so that the linear scan stays quick: the shape is the same.
        let sr = if alpha < 50.0 { 500.0 } else if alpha < 250.0 { 12_000.0 } else { SR };
        let env = rendered(fof(alpha, beta), sr).env;
        let fft_len = next_fast_len(env.support_len());
        for tol in [0.95, 0.7, 0.5, 0.3] {
            assert_eq!(
                measure_hop(&reals(), &env.samples, fft_len, d(tol)),
                measure_hop_linear(&env.samples, fft_len, tol),
                "alpha={alpha} beta={beta} tol={tol}"
            );
        }
    }
}

#[test]
fn measured_hop_meets_its_capture_tolerance() {
    for alpha in [80.0f32, 251.0, 1342.0] {
        let env = rendered(fof(alpha, 0.0003), SR).env;
        let fft_len = next_fast_len(env.support_len());
        let hop = measure_hop(&reals(), &env.samples, fft_len, d(0.95));
        let worst = w(envelope_capture(&reals(), &env.samples, hop / 2, fft_len));
        assert!(worst >= 0.94, "alpha={alpha}: capture at hop/2 = {worst:.4}, below tolerance");
    }
}

#[test]
fn gram_inverse_is_exact_for_gaussian_blocks() {
    for sigma in [0.001f32, 0.004, 0.02] {
        let b = gauss_block(sigma);
        let probes = [b.k_lo, b.k_lo + 1, b.k_lo + 3, b.fft_len / 8, b.fft_len / 5, b.k_hi];
        assert_gram_inverse_exact(&b, &probes);
    }
}

#[test]
fn hop_search_matches_the_linear_scan_for_gaussians() {
    for sigma in [0.0005f32, 0.002, 0.008, 0.03, 0.1] {
        let sr = if sigma > 0.01 { 4_000.0 } else { SR };
        let env = rendered(gaussian(sigma), sr).env;
        let fft_len = next_fast_len(env.support_len());
        for tol in [0.95, 0.7, 0.5, 0.3] {
            assert_eq!(
                measure_hop(&reals(), &env.samples, fft_len, d(tol)),
                measure_hop_linear(&env.samples, fft_len, tol),
                "sigma={sigma} tol={tol}"
            );
        }
    }
}

#[test]
fn gaussian_hop_scales_with_sigma_and_meets_its_tolerance() {
    let (narrow, wide) = (gauss_block(0.002), gauss_block(0.008));
    let ratio = wide.hop as f64 / narrow.hop as f64;
    assert!((3.6..4.4).contains(&ratio), "hop {} -> {}: ratio {ratio:.2}", narrow.hop, wide.hop);
    for b in [&narrow, &wide] {
        let worst = w(envelope_capture(&reals(), &b.env.samples, b.hop / 2, b.fft_len));
        let text = b.env.params.describe(&notation());
        assert!(worst >= 0.94, "{text}: capture at hop/2 = {worst:.4}");
    }
}

#[test]
fn a_mixed_dictionary_keeps_the_shape_order() {
    let shapes = [fof(800.0, 0.001), gaussian(0.003), fof(2000.0, 0.01), gaussian(0.001)];
    // Past the cliff a FOF renders silent, and is skipped.
    let render = |s: Shape, sr: Single| match s {
        Shape::Fof(p) if v(p.alpha) * v(p.beta) > 4.0 => Err(FofError::SilentGrain),
        _ => Ok(rendered(s, v(sr)).env),
    };
    let cfg = block_config(0.95, 50.0, 10_000.0);
    let dict = Dictionary::from_shapes(&reals(), &shapes, f(SR), &cfg, &render, &transform).unwrap();
    let got: Vec<Shape> = dict.blocks.iter().map(|b| b.env.params).collect();
    assert_eq!(got, vec![shapes[0], shapes[1], shapes[3]]);
}

#[test]
fn voice_dictionary_covers_the_grid_and_skips_the_cliff() {
    let cfg = block_config(0.95, 50.0, 10_000.0);
    let render = |s: Shape, sr: Single| Ok(rendered(s, v(sr)).env);
    let units = Converted { reals: reals() };
    let dict = Dictionary::voice(&reals(), &units, f(SR), &cfg, &render, &transform).unwrap();
    // 8 decay rates by 3 attacks, less two past the cap: 1342 * 0.003 and 2147 * 0.003.
    assert_eq!(dict.blocks.len(), 22);
    let fof_of = |b: &Block| match b.env.params {
        Shape::Fof(p) => (v(p.alpha), v(p.beta)),
        Shape::Gaussian(_) => panic!("a voice is FOFs"),
    };
    for b in &dict.blocks {
        let (alpha, beta) = fof_of(b);
        assert!(alpha * beta <= 4.0);
        assert!(b.hop >= 1 && b.hop < b.fft_len);
        assert!(b.k_lo <= b.k_hi);
    }
    // Support, and so the window, must shrink as the decay quickens.
    let mut by_alpha: Vec<&Block> = dict.blocks.iter().filter(|b| fof_of(b).1 == 0.0003).collect();
    by_alpha.sort_by(|a, b| fof_of(a).0.total_cmp(&fof_of(b).0));
    assert_eq!(by_alpha.len(), 8);
    for pair in by_alpha.windows(2) {
        assert!(pair[0].fft_len >= pair[1].fft_len);
    }

    // The same pairs, through the grid of a decay ladder and an attack ladder.
    let pairs = voice_grid();
    let products: Vec<Single> = pairs.iter().map(|(a, b)| f(v(*a) * v(*b))).collect();
    let alphas: Vec<Single> = pairs.iter().step_by(3).map(|(a, _)| *a).collect();
    let betas: Vec<Single> = pairs[..3].iter().map(|(_, b)| *b).collect();
    let kept: Vec<(f32, f32)> = fof_grid(&alphas, &betas, &products, f(4.0))
        .into_iter()
        .map(|(a, b)| (v(a), v(b)))
        .collect();
    assert_eq!(dict.blocks.iter().map(fof_of).collect::<Vec<_>>(), kept);
}

/// A grid's blocks take their release from the policy: the scale over the decay, inside its bounds.
#[test]
fn a_grid_is_released_by_the_policy() {
    let cfg = block_config(0.95, 500.0, 6000.0);
    let render = |s: Shape, sr: Single| Ok(rendered(s, v(sr)).env);
    let units = Converted { reals: reals() };
    let grid = [(f(40.0), f(0.001)), (f(300.0), f(0.002)), (f(2147.0), f(0.0003))];
    let dict =
        Dictionary::from_grid(&reals(), &units, &grid, f(SR), &cfg, &render, &transform).unwrap();
    let scale = v(cfg.release.fade_dur_scale);
    let (lo, hi) = (v(cfg.release.fade_dur_min), v(cfg.release.fade_dur_max));
    assert_eq!(dict.blocks.len(), 3);
    for (b, (alpha, beta)) in dict.blocks.iter().zip(grid) {
        let fade_dur = f((scale / v(alpha)).clamp(lo, hi));
        let fade_level = cfg.release.fade_level;
        assert_eq!(b.env.params, Shape::Fof(EnvelopeParams { alpha, beta, fade_level, fade_dur }));
    }

    // Silent grains are left out, and a grid of nothing else is no dictionary.
    let silent = |_: Shape, _: Single| Err::<Envelope, FofError>(FofError::SilentGrain);
    let none = Dictionary::from_grid(&reals(), &units, &grid, f(SR), &cfg, &silent, &transform);
    assert!(none.is_err());
}

#[test]
fn frame_grid_covers_the_signal() {
    let b = block(251.0, 0.002);
    let n = 48_000;
    let frames = b.frame_count(n);
    assert!(b.frame_onset(frames - 1) < n);
    assert!(b.frame_onset(frames) >= n);
    assert_eq!(b.frame_count(0), 0);
}

#[test]
fn a_block_without_bins_and_a_dictionary_without_blocks_are_refused() {
    let why = try_block(fof(800.0, 0.001), 10_000.0, 9_000.0);
    match why {
        Err(FofError::Invalid(why)) => assert_eq!(why, "empty frequency range for this block"),
        _ => panic!("an empty range was built"),
    }
    let cfg = block_config(0.95, 50.0, 10_000.0);
    let gather = |built| Dictionary::gather(built, f(SR));
    assert!(gather(vec![Err(FofError::SilentGrain)]).is_err());
    assert!(gather(vec![]).is_err());
    let bad = FofError::Invalid("gaussian sigma must be > 0 and finite");
    match gather(vec![try_block(gaussian(0.003), 50.0, 10_000.0), Err(bad)]) {
        Err(FofError::Invalid(why)) => assert_eq!(why, "gaussian sigma must be > 0 and finite"),
        _ => panic!("an invalid shape was built"),
    }
    let mut unusable = cfg;
    unusable.release.fade_level = f(2.0);
    let render = |s: Shape, sr: Single| Ok(rendered(s, v(sr)).env);
    match Dictionary::from_shapes(&reals(), &[gaussian(0.003)], f(SR), &unusable, &render, &transform) {
        Err(FofError::Invalid(why)) => assert_eq!(why, "fade_level must be in (0, 1)"),
        _ => panic!("an unusable release was taken"),
    }
}

/// A bin that is too coherent is dead, and a dead bin is reported so.
#[test]
fn ill_conditioned_bins_are_disabled() {
    let env = rendered(gaussian(0.001), SR).env;
    let fft_len = next_fast_len(env.support_len());
    let squared: Vec<Single> = (0..fft_len)
        .map(|t| env.samples.get(t).map_or(f(0.0), |&x| f(v(x) * v(x))))
        .collect();
    let spectrum = transform(squared);
    let mut gram: Vec<GramBin> = (2..=4)
        .map(|k| {
            let (c, s) = fold_e2_bin(&reals(), &spectrum, fft_len, 2 * k);
            gram_bin(&reals(), env.energy, c, s)
        })
        .collect();
    gram[1].rho_sq = d(0.99995);
    let b = Block::assemble(env, fft_len, 8, 2, 4, &gram, d(1.0 - 1e-4)).unwrap();
    assert_eq!(b.live_bins(), vec![2, 4]);
    assert!(b.gram_inv(3).is_none());
    assert_eq!(b.rho(3), Some(gram[1].rho));
    assert_eq!(b.gram_rows().0.len(), 3);
}

#[test]
fn fast_lengths_are_even_and_five_smooth() {
    for (n, want) in [(1, 2), (7, 8), (11, 12), (13, 16), (1001, 1024), (2048, 2048), (4097, 4320)] {
        assert_eq!(next_fast_len(n), want, "{n}");
    }
}

/// Galloping finds the linear scan's crossing wherever the capture falls once, at every distance.
#[test]
fn galloping_finds_the_first_offset_that_fails() {
    for sigma in [1.0f32, 2.0, 3.5, 7.0, 19.0, 40.0] {
        let env: Vec<Single> =
            (0..101).map(|i| f((-0.5 * ((i as f32 - 50.0) / sigma).powi(2)).exp())).collect();
        for tol in [0.3, 0.5, 0.9, 0.95, 0.999] {
            assert_eq!(
                measure_hop(&reals(), &env, 128, d(tol)),
                measure_hop_linear(&env, 128, tol),
                "{sigma} at {tol}"
            );
        }
    }
    // Nothing is captured past one sample, and nothing at all over no bins.
    let spike = [f(1.0)];
    assert_eq!(measure_hop(&reals(), &spike, 64, d(2.0)), 1);
    assert_eq!(measure_hop(&reals(), &spike, 0, d(0.5)), 1);
}
