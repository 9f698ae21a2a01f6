//! Refinement, its search and its cache.

use realfft::RealFftPlanner;
use rmp::arith::{Arith, Form, Gram, Params, Rendered, Scorer, Search, Stage};
use rmp::atom::{AtomParams, Envelope, EnvelopeParams, GaussianParams, Shape};
use rmp::cache::{EnvelopeCache, ENVELOPE_CACHE_SAMPLES};
use rmp::cand::{Candidate, Seed};
use rmp::corr::Projection;
use rmp::dict::{voice_grid, Bin, Block, BlockConfig, ReleasePolicy};
use rmp::golden::{golden, score_all, Family, Line};
use rmp::ieee::{Double, Single};
use rmp::reals::{Elementary, Reals};
use rmp::refine::{refine, refine_at_width, RefineConfig};
use std::sync::Mutex;

const SR: f32 = 48_000.0;

fn d(x: f64) -> Double {
    Double { bits: x.to_bits() }
}

fn f(x: f32) -> Single {
    Single { bits: x.to_bits() }
}

fn v(x: Single) -> f32 {
    f32::from_bits(x.bits)
}

fn w(x: Double) -> f64 {
    f64::from_bits(x.bits)
}

/// The machine's own arithmetic.
fn reals() -> impl Reals + Sync {
    Elementary {
        plus: |a: Double, b: Double| d(w(a) + w(b)),
        minus: |a: Double, b: Double| d(w(a) - w(b)),
        times: |a: Double, b: Double| d(w(a) * w(b)),
        over: |a: Double, b: Double| d(w(a) / w(b)),
        root: |x: Double| d(w(x).sqrt()),
        exp: |x: Double| d(w(x).exp()),
        ln: |x: Double| d(w(x).ln()),
        log10: |x: Double| d(w(x).log10()),
        power: |a: Double, b: Double| d(w(a).powf(w(b))),
        sine: |x: Double| d(w(x).sin()),
        cosine: |x: Double| d(w(x).cos()),
        hypot: |a: Double, b: Double| d(w(a).hypot(w(b))),
        angle: |y: Double, x: Double| d(w(y).atan2(w(x))),
        floor: |x: Double| d(w(x).floor()),
        ceil: |x: Double| d(w(x).ceil()),
        round: |x: Double| d(w(x).round()),
        widen: |x: Single| d(v(x) as f64),
        narrow: |x: Double| f(w(x) as f32),
        count: |n: usize| d(n as f64),
        long: |n: i128| d(n as f64),
        huge: |n: u128| d(n as f64),
        whole: |x: Double| w(x) as usize,
        integer: |x: Double| w(x) as i64,
        byte: |x: Double| w(x) as u8,
        plus_single: |a: Single, b: Single| f(v(a) + v(b)),
        minus_single: |a: Single, b: Single| f(v(a) - v(b)),
        times_single: |a: Single, b: Single| f(v(a) * v(b)),
        over_single: |a: Single, b: Single| f(v(a) / v(b)),
        root_single: |x: Single| f(v(x).sqrt()),
        exp_single: |x: Single| f(v(x).exp()),
        ln_single: |x: Single| f(v(x).ln()),
        floor_single: |x: Single| f(v(x).floor()),
        ceil_single: |x: Single| f(v(x).ceil()),
        round_single: |x: Single| f(v(x).round()),
        count_single: |n: usize| f(n as f32),
        long_single: |n: i128| f(n as f32),
        whole_single: |x: Single| v(x) as usize,
        word_single: |x: Single| v(x) as u32,
        fixed: |x: Double, digits: u8| format!("{:.*}", digits as usize, w(x)),
        signed: |x: Double, digits: u8| format!("{:+.*}", digits as usize, w(x)),
        exponent: |x: Double, digits: u8| format!("{:.*e}", digits as usize, w(x)),
        plain: |x: Double| format!("{}", w(x)),
        plain_single: |x: Single| format!("{}", v(x)),
    }
}

/// A FOF's envelope, normalised to its peak: a raised-cosine attack over a decay, and a linear
/// release from where the decay has fallen to the release level. Beside it, where the release begins.
fn fof_envelope(p: EnvelopeParams, sr: f32) -> (Vec<f32>, usize) {
    let (alpha, beta) = (v(p.alpha) as f64, v(p.beta) as f64);
    let raw = |t: f64| {
        let attack = if t < beta { 0.5 * (1.0 - (std::f64::consts::PI * t / beta).cos()) } else { 1.0 };
        attack * (-alpha * t).exp()
    };
    let dt = 1.0 / sr as f64;
    let reach = (-(v(p.fade_level) as f64).ln() / alpha).max(beta) + beta;
    let body = (reach / dt).ceil() as usize;
    let peak = (0..body).map(|n| raw(n as f64 * dt)).fold(0.0, f64::max);
    let start = (0..body)
        .rev()
        .find(|&n| raw(n as f64 * dt) >= peak * v(p.fade_level) as f64)
        .map_or(0, |n| n + 1);
    let release = (v(p.fade_dur) as f64 / dt).round().max(1.0) as usize;
    let env = (0..start + release)
        .map(|n| {
            let fade = if n < start { 1.0 } else { 1.0 - (n - start) as f64 / release as f64 };
            (fade * raw(n as f64 * dt) / peak) as f32
        })
        .collect();
    (env, start)
}

fn rendered(shape: Shape, sr: f32) -> Rendered {
    let (samples, cut) = match shape {
        Shape::Fof(p) => fof_envelope(p, sr),
        Shape::Gaussian(g) => {
            let env: Vec<f32> =
                g.render_envelope(&reals(), f(sr)).unwrap().into_iter().map(v).collect();
            let cut = env.len();
            (env, cut)
        }
    };
    let samples = samples.into_iter().map(f).collect();
    Rendered { env: Envelope::of_samples(&reals(), shape, f(sr), samples), cut }
}

fn render_atom(a: &AtomParams, sr: f32) -> Vec<f32> {
    let e = rendered(a.env, sr).env;
    let omega = std::f64::consts::TAU * v(a.f) as f64 / sr as f64;
    let carrier = |n: usize| (v(a.phi) as f64 + omega * n as f64).sin();
    let amp = v(a.amp) as f64;
    e.samples.iter().enumerate().map(|(n, &x)| (amp * v(x) as f64 * carrier(n)) as f32).collect()
}

fn add_at(sig: &mut [f32], atom: &[f32], t0: i64) {
    for (n, &x) in atom.iter().enumerate() {
        let t = t0 + n as i64;
        if t >= 0 && (t as usize) < sig.len() {
            sig[t as usize] += x;
        }
    }
}

/// The Gram of an envelope's quadratures, and a signal's correlation with them.
fn sums(env: &[Single], sig: &[Single], t0: i64, omega: f64) -> ([f64; 3], [f64; 2]) {
    let (mut g, mut c) = ([0.0; 3], [0.0; 2]);
    for (n, &e) in env.iter().enumerate() {
        let (s, k) = (omega * n as f64).sin_cos();
        let (u, x) = (v(e) as f64 * s, v(e) as f64 * k);
        g[0] += u * u;
        g[1] += u * x;
        g[2] += x * x;
        let t = t0 + n as i64;
        if t >= 0 && (t as usize) < sig.len() {
            c[0] += u * v(sig[t as usize]) as f64;
            c[1] += x * v(sig[t as usize]) as f64;
        }
    }
    (g, c)
}

/// The closed-form amplitudes of the two quadratures and the energy they capture, or `None` where
/// the two are too alike to tell apart.
fn solved(g: [f64; 3], c: [f64; 2], rho_sq_max: f64) -> Option<(f64, f64, f64)> {
    let det = g[0] * g[2] - g[1] * g[1];
    if !(g[1] * g[1] <= rho_sq_max * g[0] * g[2]) || !(det > 0.0) {
        return None;
    }
    let a = (g[2] * c[0] - g[1] * c[1]) / det;
    let b = (g[0] * c[1] - g[1] * c[0]) / det;
    Some((a, b, a * c[0] + b * c[1]))
}

fn score(env: &[Single], sig: &[Single], t0: i64, freq: f32, sr: f32, rho: f64) -> Option<Projection> {
    let (g, c) = sums(env, sig, t0, std::f64::consts::TAU * freq as f64 / sr as f64);
    let (a, b, energy) = solved(g, c, rho)?;
    Some(Projection { energy: d(energy), amp: f(a.hypot(b) as f32), phi: f(b.atan2(a) as f32) })
}

/// A real transform.
fn transform(x: Vec<Single>) -> Vec<Bin> {
    let plan = RealFftPlanner::<f32>::new().plan_fft_forward(x.len());
    let mut input: Vec<f32> = x.into_iter().map(v).collect();
    let mut spectrum = plan.make_output_vec();
    plan.process(&mut input, &mut spectrum).unwrap();
    spectrum.iter().map(|c| Bin { re: f(c.re), im: f(c.im) }).collect()
}

fn block_config(tol: f64, f_min: f32, f_max: f32) -> BlockConfig {
    BlockConfig {
        capture_tol: d(tol),
        f_min: f(f_min),
        f_max: f(f_max),
        rho_sq_max: f(1.0 - 1e-4),
        release: ReleasePolicy {
            fade_level: f(1e-3),
            fade_dur_scale: f(0.5),
            fade_dur_min: f(0.001),
            fade_dur_max: f(0.02),
        },
    }
}

fn built(shape: Shape, sr: f32, tol: f64, f_min: f32, f_max: f32) -> Block {
    let cfg = block_config(tol, f_min, f_max);
    Block::new(&reals(), rendered(shape, sr).env, &cfg, &transform).unwrap()
}

fn bin_hz(b: &Block, k: usize) -> f32 {
    v(b.bin_hz(&reals(), k))
}

fn fof_with(alpha: f32, beta: f32, fade_dur: f32) -> Shape {
    Shape::Fof(EnvelopeParams {
        alpha: f(alpha),
        beta: f(beta),
        fade_level: f(1e-3),
        fade_dur: f(fade_dur),
    })
}

/// A FOF released over half its time constant, within bounds.
fn fof(alpha: f32, beta: f32) -> Shape {
    fof_with(alpha, beta, (0.5 / alpha).clamp(0.001, 0.02))
}

fn gaussian(sigma: f32) -> Shape {
    Shape::Gaussian(GaussianParams::new(f(sigma)))
}

fn block(shape: Shape) -> Block {
    built(shape, SR, 0.95, 50.0, 10_000.0)
}

fn singles(x: &[f32]) -> Vec<Single> {
    x.iter().map(|&x| f(x)).collect()
}

/// Rendering and scoring, with bins as alike as `rho_sq_max` told apart.
fn scorer(
    rho_sq_max: Double,
) -> Scorer<
    impl Reals + Sync,
    impl Fn(Shape) -> Option<Rendered> + Sync,
    impl Fn(&[Single], Params, &Rendered, Option<Gram>) -> Double + Sync,
    impl Fn(&Rendered, Single) -> Gram + Sync,
    impl Fn(&[Single], Params, &Rendered) -> Option<Projection> + Sync,
> {
    let omega = |freq: Single| std::f64::consts::TAU * v(freq) as f64 / SR as f64;
    Scorer {
        reals: reals(),
        render: |s: Shape| Some(rendered(s, SR)),
        region: move |sig: &[Single], p: Params, e: &Rendered, gram: Option<Gram>| {
            let (mut g, c) = sums(&e.env.samples[..e.cut], sig, p.t0, omega(p.f));
            if let Some(known) = gram {
                g = [w(known.uu), w(known.uv), w(known.vv)];
            }
            d(solved(g, c, w(rho_sq_max)).map_or(0.0, |(_, _, energy)| energy))
        },
        gram: move |e: &Rendered, freq: Single| {
            let ([uu, uv, vv], _) = sums(&e.env.samples[..e.cut], &[], 0, omega(freq));
            Gram { uu: d(uu), uv: d(uv), vv: d(vv) }
        },
        full: move |sig: &[Single], p: Params, e: &Rendered| {
            score(&e.env.samples, sig, p.t0, v(p.f), SR, w(rho_sq_max))
        },
    }
}

/// A search whose every FOF is released over `fade_dur`.
fn fixed<'a, R, A, B, C, D>(
    s: &'a Scorer<R, A, B, C, D>,
    residual: &'a [Single],
    cfg: RefineConfig,
    fade_dur: f32,
) -> Search<'a, R, A, B, C, D> {
    Search {
        reals: &s.reals,
        residual,
        cfg,
        policy: ReleasePolicy {
            fade_level: f(1e-3),
            fade_dur_scale: f(0.5),
            fade_dur_min: f(fade_dur),
            fade_dur_max: f(fade_dur),
        },
        cutoff_level: GaussianParams::new(f(1.0)).cutoff_level,
        bin_hz: f(1.0),
        sample_rate: f(SR),
        render: &s.render,
        region: &s.region,
        gram: &s.gram,
        full: &s.full,
    }
}

const R: f64 = 0.618_033_988_749_895;

fn half_len(g: GaussianParams, sr: Single) -> usize {
    g.half_len(&reals(), sr)
}

/// Seed a candidate of a block at a frame and bin, as the coarse search would.
fn seed(b: &Block, frame: usize, bin: usize, sig: &[f32]) -> Candidate {
    let onset = b.frame_onset(frame);
    let freq = bin_hz(b, bin);
    let p = score(&b.env.samples, &singles(sig), onset as i64, freq, SR, 1.0 - 1e-4)
        .expect("seed must be scorable");
    let at = Seed { block: 0, frame, bin, onset, energy: p.energy };
    Candidate::from_seed(&reals(), at, b, p.amp, p.phi, p.energy)
}

fn nearest_bin(b: &Block, freq: f32) -> usize {
    ((freq / bin_hz(b, 1)).round() as usize).clamp(b.k_lo, b.k_hi)
}

/// Seed at the grid point nearest `truth`.
fn seed_at(b: &Block, truth: &AtomParams, sig: &[f32]) -> Candidate {
    let frame = (truth.t0 as usize).div_ceil(b.hop).min(b.frame_count(sig.len()) - 1);
    seed(b, frame, nearest_bin(b, v(truth.f)), sig)
}

fn plant(truth: &AtomParams, len: usize) -> Vec<f32> {
    let mut sig = vec![0.0f32; len];
    add_at(&mut sig, &render_atom(truth, SR), truth.t0);
    sig
}

fn energy_of(sig: &[f32]) -> f64 {
    sig.iter().map(|&x| x as f64 * x as f64).sum()
}

fn noise(len: usize, mut s: u64) -> Vec<f32> {
    (0..len)
        .map(|_| {
            s ^= s << 13;
            s ^= s >> 7;
            s ^= s << 17;
            (s >> 40) as f32 / 8_388_608.0 - 1.0
        })
        .collect()
}

fn refined(cand: &mut Candidate, b: &Block, sig: &[f32], cfg: RefineConfig, cache: &mut EnvelopeCache) -> bool {
    let (s, residual) = (scorer(cfg.rho_sq_max), singles(sig));
    let ar = s.search(&residual, b, cand.atom.env, &cfg);
    refine(cand, b, &cfg, &ar, cache)
}

#[test]
fn recovers_an_off_grid_atom_from_an_imperfect_seed() {
    let truth = AtomParams {
        t0: 6_211,
        f: f(1_337.0),
        env: fof(410.0, 0.0017),
        phi: f(0.83),
        amp: f(0.7),
    };
    let sig = plant(&truth, 30_000);
    // The wrong rung, and the wrong attack.
    let b = block(fof(328.0, 0.001));
    let mut cand = seed_at(&b, &truth, &sig);
    let before = w(cand.mp_score);

    let moved = refined(&mut cand, &b, &sig, RefineConfig::default(), &mut EnvelopeCache::new());
    assert!(moved, "refinement declined to move");
    assert!(cand.refined);

    let total = energy_of(&sig);
    let g = &cand.atom;
    let (ge, te) = (g.env.as_fof().unwrap(), truth.env.as_fof().unwrap());
    assert!(w(cand.mp_score) > before, "refinement lost energy");
    assert!(w(cand.mp_score) / total > 0.99, "captured only {:.4} of {total:.4}", w(cand.mp_score));
    assert!((v(g.f) - v(truth.f)).abs() / v(truth.f) < 1e-3, "f {}", v(g.f));
    assert!((v(g.amp) - v(truth.amp)).abs() / v(truth.amp) < 0.05, "amp {}", v(g.amp));
    // All three shape the attack, so they trade against each other along a shallow valley.
    assert!((g.t0 - truth.t0).abs() <= 8, "t0 off by {}", g.t0 - truth.t0);
    assert!((v(ge.alpha) - v(te.alpha)).abs() / v(te.alpha) < 0.25, "alpha {}", v(ge.alpha));
    assert!((v(ge.beta) - v(te.beta)).abs() / v(te.beta) < 0.35, "beta {}", v(ge.beta));
}

#[test]
fn refinement_never_lowers_the_full_support_score() {
    let mut cache = EnvelopeCache::new();
    let cfg = RefineConfig::default();
    let sig = noise(20_000, 0x9e37_79b9_7f4a_7c15);
    // The grid without its two pairs past the cliff.
    let shapes: Vec<Shape> = voice_grid()
        .iter()
        .filter(|(a, b)| v(*a) * v(*b) <= 4.0)
        .map(|(a, b)| fof(v(*a), v(*b)))
        .collect();
    for bi in [0, 5, 11, 17] {
        let b = block(shapes[bi]);
        let frame = 7.min(b.frame_count(sig.len()) - 1);
        let mut cand = seed(&b, frame, (b.k_lo + b.k_hi) / 2, &sig);
        let before = w(cand.mp_score);
        refined(&mut cand, &b, &sig, cfg, &mut cache);
        assert!(w(cand.mp_score) >= before, "block {bi}: {} < seed {before}", w(cand.mp_score));
    }
}

#[test]
fn refined_parameters_stay_inside_their_bounds() {
    let truth =
        AtomParams { t0: 4_000, f: f(900.0), env: fof(300.0, 0.002), phi: f(0.0), amp: f(1.0) };
    let sig = plant(&truth, 24_000);
    // Bounds far tighter than the truth, so the search would leave them if it could.
    let cfg = RefineConfig {
        alpha_min: f(500.0),
        alpha_max: f(700.0),
        beta_min: f(3e-3),
        beta_max: f(4e-3),
        f_min: f(1_000.0),
        f_max: f(1_200.0),
        ..RefineConfig::default()
    };
    for beta in [0.0003, 0.003] {
        let b = block(fof(524.0, beta));
        let mut cand = seed(&b, 4_000 / b.hop, nearest_bin(&b, 1_100.0), &sig);
        refined(&mut cand, &b, &sig, cfg, &mut EnvelopeCache::new());
        // A seed whose attack is out of bounds can only decline.
        assert!(beta > 0.001 || !cand.refined);
        let e = cand.atom.env.as_fof().unwrap();
        if cand.refined {
            assert!(v(e.alpha) >= v(cfg.alpha_min) && v(e.alpha) <= v(cfg.alpha_max));
            assert!(v(e.beta) >= v(cfg.beta_min) && v(e.beta) <= v(cfg.beta_max));
            assert!(v(cand.atom.f) >= v(cfg.f_min) && v(cand.atom.f) <= v(cfg.f_max));
            assert!(v(e.alpha) * v(e.beta) <= v(cfg.alpha_beta_max));
        }
    }
}

#[test]
fn recovers_an_off_grid_gaussian_about_its_centre() {
    let truth_env = GaussianParams::new(f(0.0041));
    let truth = AtomParams {
        t0: 6_211,
        f: f(1_337.0),
        env: Shape::Gaussian(truth_env),
        phi: f(0.83),
        amp: f(0.7),
    };
    let sig = plant(&truth, 30_000);
    let centre = truth.t0 + half_len(truth_env, f(SR)) as i64;

    // Seed from the 2.5 ms rung, centred on the nearest frame.
    let b = block(gaussian(0.0025));
    let h_seed = half_len(b.env.params.as_gaussian().unwrap(), f(SR)) as i64;
    let frame = ((centre - h_seed) as usize).div_ceil(b.hop);
    let mut cand = seed(&b, frame, nearest_bin(&b, v(truth.f)), &sig);
    let before = w(cand.mp_score);

    let moved = refined(&mut cand, &b, &sig, RefineConfig::default(), &mut EnvelopeCache::new());
    assert!(moved, "refinement declined to move");

    let g = cand.atom.env.as_gaussian().expect("refinement changed the atom's kind");
    let got_centre = cand.atom.t0 + half_len(g, f(SR)) as i64;
    let total = energy_of(&sig);
    assert!(w(cand.mp_score) > before, "refinement lost energy");
    assert!(w(cand.mp_score) / total > 0.99, "captured only {:.4} of {total:.4}", w(cand.mp_score));
    assert!((v(cand.atom.f) - v(truth.f)).abs() / v(truth.f) < 1e-3, "f {}", v(cand.atom.f));
    assert!((v(g.sigma) - v(truth_env.sigma)).abs() / v(truth_env.sigma) < 0.05, "sigma {}", v(g.sigma));
    assert!((got_centre - centre).abs() <= 4, "centre off by {}", got_centre - centre);
    assert!((v(cand.atom.amp) - v(truth.amp)).abs() / v(truth.amp) < 0.05, "amp {}", v(cand.atom.amp));
    assert_eq!(g.cutoff_level, truth_env.cutoff_level, "the cutoff is inherited, not searched");
}

#[test]
fn gaussian_refinement_never_lowers_the_score_and_stays_in_bounds() {
    let mut cache = EnvelopeCache::new();
    // The widest rung is outside these bounds, so that seed can only decline.
    let cfg = RefineConfig { sigma_min: f(0.002), sigma_max: f(0.009), ..RefineConfig::default() };
    let sig = noise(20_000, 0x1234_5678_9abc_def1);
    for (bi, sigma) in [0.0025f32, 0.006, 0.015].into_iter().enumerate() {
        let b = block(gaussian(sigma));
        let frame = 7.min(b.frame_count(sig.len()) - 1);
        let mut cand = seed(&b, frame, (b.k_lo + b.k_hi) / 2, &sig);
        let before = w(cand.mp_score);
        refined(&mut cand, &b, &sig, cfg, &mut cache);
        assert!(w(cand.mp_score) >= before, "block {bi}: {} < seed {before}", w(cand.mp_score));
        if cand.refined {
            let s = v(cand.atom.env.as_gaussian().unwrap().sigma);
            assert!((v(cfg.sigma_min)..=v(cfg.sigma_max)).contains(&s), "block {bi}: sigma {s}");
        }
        assert!(bi < 2 || !cand.refined);
    }
}

#[test]
fn the_cache_serves_repeats_rather_than_re_rendering() {
    let mut cache = EnvelopeCache::new();
    let cfg = RefineConfig::default();
    let s = scorer(cfg.rho_sq_max);
    let ar = fixed(&s, &[], cfg, 0.002);
    for _ in 0..5 {
        assert!(cache.get(&ar, &cfg, fof(251.0, 0.001)).is_some());
    }
    assert_eq!(cache.len(), 1);
    assert!(cache.get(&ar, &cfg, fof(1e6, 0.001)).is_none());
    assert!(cache.get(&ar, &cfg, fof(251.0, 1.0)).is_none());
    // A Gaussian is bounded by sigma, and never collides with a FOF's key.
    assert!(cache.get(&ar, &cfg, gaussian(0.004)).is_some());
    assert!(cache.get(&ar, &cfg, gaussian(10.0)).is_none());
    assert_eq!(cache.len(), 2);
    assert!(!cache.is_empty());

    let held = cache.usage().0;
    assert_eq!(cache.usage(), (held, held));
    cache.clear();
    assert!(cache.is_empty());
    assert_eq!((cache.usage(), cache.clears()), ((0, held), 1));
}

/// Scoring by a function of `f` alone.
fn pure<'a>(
    objective: impl Fn(f64) -> f64 + Sync + 'a,
) -> Scorer<
    impl Reals + Sync,
    impl Fn(Shape) -> Option<Rendered> + Sync,
    impl Fn(&[Single], Params, &Rendered, Option<Gram>) -> Double + Sync + 'a,
    impl Fn(&Rendered, Single) -> Gram + Sync,
    impl Fn(&[Single], Params, &Rendered) -> Option<Projection> + Sync,
> {
    Scorer {
        reals: reals(),
        render: |s: Shape| {
            let env = Envelope { params: s, sample_rate: f(SR), samples: vec![f(1.0)], energy: d(1.0) };
            Some(Rendered { env, cut: 1 })
        },
        region: move |_: &[Single], p: Params, _: &Rendered, _: Option<Gram>| {
            d(objective(v(p.f) as f64))
        },
        gram: |_: &Rendered, _: Single| Gram { uu: d(1.0), uv: d(0.0), vv: d(1.0) },
        full: |_: &[Single], _: Params, _: &Rendered| None::<Projection>,
    }
}

fn search(
    ar: &(impl Arith + Sync),
    base: Params,
    best: f64,
    (lo, hi): (f64, f64),
    iters: usize,
    width: usize,
) -> (Params, f64) {
    let cfg = RefineConfig { alpha_min: f(0.0), beta_min: f(0.0), beta_max: f(9.0), ..RefineConfig::default() };
    let family = Family::Fof { fade_level: f(1e-3) };
    let line = Line { ar, cfg: &cfg, family, stage: Stage::Frequency, base, gram: None };
    let mut cache = EnvelopeCache::new();
    let (p, s) = golden(&line, d(lo), d(hi), iters, d(best), width, &mut cache);
    (p, w(s))
}

fn params(alpha: f32, beta: f32, freq: f32, t0: i64) -> Params {
    Params { form: Form::Fof { alpha: f(alpha), beta: f(beta) }, f: f(freq), t0 }
}

#[test]
fn golden_section_finds_a_smooth_maximum_and_never_regresses() {
    let s = pure(|x| -((x - 3.0).powi(2)));
    let quadratic = fixed(&s, &[], RefineConfig::default(), 0.001);
    let (p, _) = search(&quadratic, params(0.0, 0.0, 0.0, 0), f64::NEG_INFINITY, (0.0, 10.0), 40, 1);
    assert!((v(p.f) - 3.0).abs() < 1e-3, "found {}", v(p.f));

    // An incumbent better than anything in the bracket must survive untouched.
    let keep = params(1.0, 2.0, 42.0, 7);
    assert_eq!(search(&quadratic, keep, 1e9, (0.0, 10.0), 20, 1), (keep, 1e9));

    // A degenerate bracket is a no-op.
    let s = pure(|_| 1.0);
    let flat = fixed(&s, &[], RefineConfig::default(), 0.001);
    assert_eq!(search(&flat, keep, 0.0, (5.0, 5.0), 10, 1).0, keep);
}

/// One probe per step, scored the moment it is placed.
fn golden_reference(
    lo: f64,
    hi: f64,
    iters: usize,
    base: Params,
    score: impl Fn(f64) -> f64,
) -> (Params, f64, Vec<u64>) {
    let mut probed = Vec::new();
    let mut eval = |x: f64| {
        let p = Params { f: f(x as f32), ..base };
        probed.push((v(p.f) as f64).to_bits());
        (p, score(v(p.f) as f64))
    };
    let (mut a, mut b) = (lo, hi);
    let (mut x1, mut x2) = (b - R * (b - a), a + R * (b - a));
    let (mut p1, mut f1) = eval(x1);
    let (mut p2, mut f2) = eval(x2);
    for _ in 0..iters {
        if f1 >= f2 {
            b = x2;
            x2 = x1;
            p2 = p1;
            f2 = f1;
            x1 = b - R * (b - a);
            (p1, f1) = eval(x1);
        } else {
            a = x1;
            x1 = x2;
            p1 = p2;
            f1 = f2;
            x2 = a + R * (b - a);
            (p2, f2) = eval(x2);
        }
    }
    let (p, f) = if f1 >= f2 { (p1, f1) } else { (p2, f2) };
    (p, f, probed)
}

/// Speculation decides how much is computed, never what is found. The objective is bumpy, so the walk
/// takes both branches many times, and the iteration counts cover a batch ending mid-tree.
#[test]
fn golden_section_is_the_same_search_at_every_width() {
    let bumpy = |x: f64| (3.0 * x).sin() + 0.3 * (11.0 * x).cos() - 0.02 * (x - 6.0).powi(2);
    let start = params(1.0, 1.0, 0.0, 0);
    for iters in [0, 1, 2, 3, 7, 10, 23] {
        let (p, top, probes) = golden_reference(0.5, 12.0, iters, start, bumpy);
        assert_eq!(probes.len(), iters + 2);
        for width in [1, 2, 3, 4, 5, 7, 8, 15, 16, 17, 31, 64] {
            let scored = Mutex::new(Vec::new());
            let s = pure(|x: f64| {
                scored.lock().unwrap().push(x.to_bits());
                bumpy(x)
            });
            let ar = fixed(&s, &[], RefineConfig::default(), 0.001);
            let (got, best) = search(&ar, start, f64::NEG_INFINITY, (0.5, 12.0), iters, width);
            assert_eq!((got, best.to_bits()), (p, top.to_bits()), "iters {iters}, width {width}");
            drop(s);
            let scored = scored.into_inner().unwrap();
            assert!(probes.iter().all(|x| scored.contains(x)), "iters {iters}, width {width}");
            if width == 1 {
                assert_eq!(scored, probes, "one at a time, iters {iters}");
            }
        }
    }
}

/// A score computed ahead is not the serial score where the entry it read was cleared out before the
/// trial was committed. Only a stale entry makes that matter, so the fixture plants one: the key
/// leaves out the release, so a render too long to keep sits under the key a short-release search then
/// probes.
#[test]
fn a_held_entry_is_not_trusted_across_a_clear() {
    let truth =
        AtomParams { t0: 2_000, f: f(1_000.0), env: fof(328.0, 0.001), phi: f(0.3), amp: f(1.0) };
    let sig = plant(&truth, 12_000);
    let cfg = RefineConfig { max_atom_samples: 3_000, ..RefineConfig::default() };
    let short = |alpha: f32| fof_with(alpha, 0.001, 0.001);
    let long = |alpha: f32| fof_with(alpha, 0.001, 0.08);
    let len = |s: Shape| rendered(s, SR).env.support_len();
    assert!(len(long(328.0)) > cfg.max_atom_samples, "the long release must be refused");

    // Full after one short envelope; the second insertion clears it.
    let budget = len(short(300.0)) + len(short(360.0)) - 1;
    let (s, residual) = (scorer(cfg.rho_sq_max), singles(&sig));
    let ar = fixed(&s, &residual, cfg, 0.001);
    let at = |alpha| Params { form: Form::Fof { alpha: f(alpha), beta: f(0.001) }, f: f(1_000.0), t0: 2_000 };
    let trials = [at(360.0), at(328.0)];

    let run = |width| {
        let mut cache = EnvelopeCache::with_budget(budget);
        assert!(cache.get(&ar, &cfg, short(300.0)).is_some());
        assert!(cache.get(&ar, &cfg, long(328.0)).is_none());
        let line = Line {
            ar: &ar,
            cfg: &cfg,
            family: Family::Fof { fade_level: f(1e-3) },
            stage: Stage::Frequency,
            base: at(328.0),
            gram: None,
        };
        let scores = score_all(&line, &mut cache, &trials, width);
        (scores, cache.len(), cache.usage(), cache.clears())
    };
    let serial = run(1);
    assert_eq!(serial.3, 1, "committing the first trial must clear the cache");
    assert!(w(serial.0[1]) > 0.0, "the serial search must find the envelope");
    assert_eq!(run(2), serial);
}

/// The same, end to end. The budgets are small enough to clear mid-search, and the candidates alternate
/// between two releases on one key, so that a stale entry and a fresh render differ.
#[test]
fn refinement_is_the_same_at_every_width() {
    let truth = AtomParams {
        t0: 6_211,
        f: f(1_337.0),
        env: fof(410.0, 0.0017),
        phi: f(0.83),
        amp: f(0.7),
    };
    let mut sig = plant(&truth, 30_000);
    for (x, n) in sig.iter_mut().zip(noise(30_000, 0x2545_f491_4f6c_dd1d)) {
        *x += 0.05 * n;
    }
    let b = block(fof(328.0, 0.001));
    let short = seed_at(&b, &truth, &sig);
    let mut long = short;
    if let Shape::Fof(e) = &mut long.atom.env {
        e.fade_dur = f(0.08);
    }
    let support = b.support_len();
    let cfg = RefineConfig { max_atom_samples: support + 2_000, ..RefineConfig::default() };
    let (s, residual) = (scorer(cfg.rho_sq_max), singles(&sig));
    let ar_short = s.search(&residual, &b, short.atom.env, &cfg);
    let ar_long = s.search(&residual, &b, long.atom.env, &cfg);

    for budget in [1, support, 3 * support, 20 * support, ENVELOPE_CACHE_SAMPLES] {
        let run = |width| {
            let mut cache = EnvelopeCache::with_budget(budget);
            let mut out = Vec::new();
            for is_long in [false, true, false, false, true, true, false] {
                let mut cand = if is_long { long } else { short };
                let ar = if is_long { &ar_long } else { &ar_short };
                let moved = refine_at_width(&mut cand, &b, &cfg, ar, &mut cache, width);
                out.push((moved, cand.atom, cand.mp_score));
            }
            (out, cache.len(), cache.usage(), cache.clears())
        };
        let serial = run(1);
        assert!(serial.0.iter().any(|&(moved, ..)| moved), "budget {budget}: nothing refined");
        for width in [3, 7, 16] {
            assert!(run(width) == serial, "budget {budget}, width {width}");
        }
    }
}

/// Refining again from where refinement stopped never loses either, and a seed no envelope can be
/// rendered for is left as it was.
#[test]
fn a_seed_out_of_bounds_is_left_alone() {
    let b = block(gaussian(0.006));
    let sig = noise(8_000, 0x5bd1_e995_1234_5678);
    let mut cand = seed(&b, 3, b.k_lo + 4, &sig);
    let keep = cand;
    let cfg = RefineConfig { sigma_min: f(0.05), ..RefineConfig::default() };
    assert!(!refined(&mut cand, &b, &sig, cfg, &mut EnvelopeCache::new()));
    assert_eq!(cand, keep);

    refined(&mut cand, &b, &sig, RefineConfig::default(), &mut EnvelopeCache::new());
    let once = w(cand.mp_score);
    refined(&mut cand, &b, &sig, RefineConfig::default(), &mut EnvelopeCache::new());
    assert!(w(cand.mp_score) >= once);
}
