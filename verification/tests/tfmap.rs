//! The pseudo-Wigner map.

use realfft::RealFftPlanner;
use rmp::arith::Rendered;
use rmp::atom::{AtomParams, Envelope, EnvelopeParams, Shape};
use rmp::book::Book;
use rmp::dict::FofError;
use rmp::ieee::{Double, Single};
use rmp::mapmath::{MapFigures, MapMath};
use rmp::pursuit::Selection;
use rmp::reals::{Elementary, Reals};
use rmp::tfmap::{atom_kernel, compute, heat, MapGrid, MapOptions, Reference, TfMap, Weight};

const SR: f32 = 48_000.0;

fn d(x: f64) -> Double {
    Double { bits: x.to_bits() }
}

fn f(x: f32) -> Single {
    Single { bits: x.to_bits() }
}

fn v(x: Single) -> f32 {
    f32::from_bits(x.bits)
}

fn w(x: Double) -> f64 {
    f64::from_bits(x.bits)
}

/// The machine's own arithmetic.
fn reals() -> impl Reals + Sync {
    Elementary {
        plus: |a: Double, b: Double| d(w(a) + w(b)),
        minus: |a: Double, b: Double| d(w(a) - w(b)),
        times: |a: Double, b: Double| d(w(a) * w(b)),
        over: |a: Double, b: Double| d(w(a) / w(b)),
        root: |x: Double| d(w(x).sqrt()),
        exp: |x: Double| d(w(x).exp()),
        ln: |x: Double| d(w(x).ln()),
        log10: |x: Double| d(w(x).log10()),
        power: |a: Double, b: Double| d(w(a).powf(w(b))),
        sine: |x: Double| d(w(x).sin()),
        cosine: |x: Double| d(w(x).cos()),
        hypot: |a: Double, b: Double| d(w(a).hypot(w(b))),
        angle: |y: Double, x: Double| d(w(y).atan2(w(x))),
        floor: |x: Double| d(w(x).floor()),
        ceil: |x: Double| d(w(x).ceil()),
        round: |x: Double| d(w(x).round()),
        widen: |x: Single| d(v(x) as f64),
        narrow: |x: Double| f(w(x) as f32),
        count: |n: usize| d(n as f64),
        long: |n: i128| d(n as f64),
        huge: |n: u128| d(n as f64),
        whole: |x: Double| w(x) as usize,
        integer: |x: Double| w(x) as i64,
        byte: |x: Double| w(x) as u8,
        plus_single: |a: Single, b: Single| f(v(a) + v(b)),
        minus_single: |a: Single, b: Single| f(v(a) - v(b)),
        times_single: |a: Single, b: Single| f(v(a) * v(b)),
        over_single: |a: Single, b: Single| f(v(a) / v(b)),
        root_single: |x: Single| f(v(x).sqrt()),
        exp_single: |x: Single| f(v(x).exp()),
        ln_single: |x: Single| f(v(x).ln()),
        floor_single: |x: Single| f(v(x).floor()),
        ceil_single: |x: Single| f(v(x).ceil()),
        round_single: |x: Single| f(v(x).round()),
        count_single: |n: usize| f(n as f32),
        long_single: |n: i128| f(n as f32),
        whole_single: |x: Single| v(x) as usize,
        word_single: |x: Single| v(x) as u32,
        fixed: |x: Double, digits: u8| format!("{:.*}", digits as usize, w(x)),
        signed: |x: Double, digits: u8| format!("{:+.*}", digits as usize, w(x)),
        exponent: |x: Double, digits: u8| format!("{:.*e}", digits as usize, w(x)),
        plain: |x: Double| format!("{}", w(x)),
        plain_single: |x: Single| format!("{}", v(x)),
    }
}

/// A FOF's envelope, normalised to its peak: a raised-cosine attack over a decay, and a linear
/// release from where the decay has fallen to the release level. Beside it, where the release begins.
fn fof_envelope(p: EnvelopeParams, sr: f32) -> (Vec<f32>, usize) {
    let (alpha, beta) = (v(p.alpha) as f64, v(p.beta) as f64);
    let raw = |t: f64| {
        let attack = if t < beta { 0.5 * (1.0 - (std::f64::consts::PI * t / beta).cos()) } else { 1.0 };
        attack * (-alpha * t).exp()
    };
    let dt = 1.0 / sr as f64;
    let reach = (-(v(p.fade_level) as f64).ln() / alpha).max(beta) + beta;
    let body = (reach / dt).ceil() as usize;
    let peak = (0..body).map(|n| raw(n as f64 * dt)).fold(0.0, f64::max);
    let start = (0..body)
        .rev()
        .find(|&n| raw(n as f64 * dt) >= peak * v(p.fade_level) as f64)
        .map_or(0, |n| n + 1);
    let release = (v(p.fade_dur) as f64 / dt).round().max(1.0) as usize;
    let env = (0..start + release)
        .map(|n| {
            let fade = if n < start { 1.0 } else { 1.0 - (n - start) as f64 / release as f64 };
            (fade * raw(n as f64 * dt) / peak) as f32
        })
        .collect();
    (env, start)
}

fn rendered(shape: Shape, sr: f32) -> Rendered {
    let (samples, cut) = match shape {
        Shape::Fof(p) => fof_envelope(p, sr),
        Shape::Gaussian(g) => {
            let env: Vec<f32> =
                g.render_envelope(&reals(), f(sr)).unwrap().into_iter().map(v).collect();
            let cut = env.len();
            (env, cut)
        }
    };
    let samples = samples.into_iter().map(f).collect();
    Rendered { env: Envelope::of_samples(&reals(), shape, f(sr), samples), cut }
}

fn render_atom(a: &AtomParams, sr: f32) -> Vec<f32> {
    let e = rendered(a.env, sr).env;
    let omega = std::f64::consts::TAU * v(a.f) as f64 / sr as f64;
    let carrier = |n: usize| (v(a.phi) as f64 + omega * n as f64).sin();
    let amp = v(a.amp) as f64;
    e.samples.iter().enumerate().map(|(n, &x)| (amp * v(x) as f64 * carrier(n)) as f32).collect()
}

/// A FOF past the cliff renders silent.
fn try_render(shape: Shape, sr: f32) -> Result<Envelope, FofError> {
    match shape {
        Shape::Fof(p) if v(p.alpha) * v(p.beta) > 10.0 => Err(FofError::SilentGrain),
        _ => Ok(rendered(shape, sr).env),
    }
}

/// An atom's power spectrum.
fn power(sel: Selection, n_fft: usize) -> Vec<Double> {
    let mut input = render_atom(&sel.atom, SR);
    input.resize(n_fft, 0.0);
    let plan = RealFftPlanner::<f32>::new().plan_fft_forward(n_fft);
    let mut spectrum = plan.make_output_vec();
    plan.process(&mut input, &mut spectrum).unwrap();
    spectrum
        .iter()
        .map(|c| d((c.re as f64) * (c.re as f64) + (c.im as f64) * (c.im as f64)))
        .collect()
}

fn math() -> impl MapMath + Sync {
    MapFigures {
        reals: reals(),
        render: |s: Shape, sr: Single| try_render(s, v(sr)),
        power: |sel: Selection, _: Single, _: usize, n_fft: usize| power(sel, n_fft),
    }
}

fn sel(t0: i64, freq: f32, alpha: f32, beta: f32, amp: f32) -> Selection {
    let env = Shape::Fof(EnvelopeParams {
        alpha: f(alpha),
        beta: f(beta),
        fade_level: f(1e-3),
        fade_dur: f((0.5 / alpha).clamp(0.001, 0.02)),
    });
    let atom = AtomParams { t0, f: f(freq), env, phi: f(0.3), amp: f(amp) };
    let energy = d(w(rendered(env, SR).env.energy) * (amp as f64).powi(2));
    Selection {
        atom,
        block: 0,
        onset: t0.max(0) as usize,
        bin: 1,
        projected_energy: energy,
        energy_removed: energy,
        residual_energy: d(0.0),
        hr_score: None,
        refined: false,
    }
}

fn removed(b: &Book) -> f64 {
    b.selections.iter().map(|s| w(s.energy_removed)).sum()
}

fn book_of(sels: Vec<Selection>) -> Book {
    let mut b = Book::new(d(0.0), f(SR));
    b.selections = sels;
    b.initial_energy = d(removed(&b));
    b
}

/// Decay rates over a 200x range, an atom whose negative-frequency image overlaps its own, one
/// starting before the origin, and one running past the end.
fn hard_book() -> Book {
    book_of(vec![
        sel(2_000, 1000.0, 20.0, 0.000_1, 1.0),
        sel(4_000, 2000.0, 300.0, 0.001, 0.5),
        sel(6_000, 400.0, 2000.0, 0.002, 0.8),
        sel(8_000, 3000.0, 4000.0, 0.001, 0.3),
        sel(5_000, 30.0, 4000.0, 0.000_5, 0.6),
        sel(3_000, 800.0, 1000.0, 0.004, 0.4),
        sel(-500, 600.0, 500.0, 0.001, 0.7),
        sel(11_500, 1500.0, 200.0, 0.001, 0.5),
    ])
}

fn linear(t: (f64, f64), n_t: usize, fs: (f32, f32), n_f: usize) -> MapGrid {
    MapGrid::linear(&math(), (d(t.0), d(t.1)), n_t, (f(fs.0), f(fs.1)), n_f, f(SR))
}

fn covering(b: &Book, n_t: usize, n_f: usize, log: bool) -> MapGrid {
    MapGrid::covering(&math(), b, n_t, n_f, log).unwrap()
}

fn copy(g: &MapGrid) -> MapGrid {
    MapGrid { t_edges: g.t_edges.clone(), f_edges: g.f_edges.clone(), sample_rate: g.sample_rate }
}

fn mapped(b: &Book, grid: MapGrid) -> TfMap {
    compute(&math(), b, grid, &MapOptions::default())
}

fn total(map: &TfMap) -> f64 {
    w(map.total(&math()))
}

fn ramp(u: f64) -> [u8; 3] {
    heat(&math(), d(u))
}

#[test]
fn tfmap_the_heat_ramp_is_monotone_in_luminance() {
    let lum = |c: [u8; 3]| 0.2126 * c[0] as f64 + 0.7152 * c[1] as f64 + 0.0722 * c[2] as f64;
    assert_eq!(ramp(0.0), [0, 0, 0]);
    let mut prev = -1.0;
    for i in 0..=64 {
        let l = lum(ramp(i as f64 / 64.0));
        assert!(l > prev, "luminance fell at {i}");
        prev = l;
    }
}

#[test]
fn the_heat_ramp_is_the_one_rmpstat_had() {
    assert_eq!(ramp(0.00), [0, 0, 0]);
    assert_eq!(ramp(0.15), [20, 10, 55]);
    assert_eq!(ramp(0.30), [40, 20, 110]);
    assert_eq!(ramp(0.55), [150, 30, 110]);
    assert_eq!(ramp(0.80), [240, 110, 40]);
    assert_eq!(ramp(1.00), [255, 255, 210]);
}

#[test]
fn the_heat_ramp_clamps_rather_than_wrapping() {
    assert_eq!(ramp(-0.5), ramp(0.0));
    assert_eq!(ramp(1.5), ramp(1.0));
    assert_eq!(ramp(f64::NAN), [0, 0, 0], "NaN clamps to the floor, not to a random colour");
}

#[test]
fn energy_is_conserved() {
    let b = hard_book();
    let map = mapped(&b, covering(&b, 96, 64, false));
    let expect = removed(&b);
    assert_eq!(map.skipped, 0);
    let got = w(map.deposited) + w(map.clipped);
    assert!((got - expect).abs() < 1e-9 * expect, "{got} != {expect}");
    assert!((total(&map) - w(map.deposited)).abs() < 1e-9 * expect);
}

#[test]
fn a_covering_grid_clips_nothing() {
    let b = book_of(vec![
        sel(2_000, 1000.0, 300.0, 0.001, 1.0),
        sel(6_000, 2000.0, 800.0, 0.001, 0.5),
    ]);
    // Up to Nyquist, so that no skirt escapes off the top.
    let base = covering(&b, 128, 256, false);
    let t = (w(base.t_edges[0]) - 1.0, w(base.t_edges[base.n_t()]) + 1.0);
    let map = mapped(&b, linear(t, 128, (0.0, SR / 2.0), 256));
    let expect = removed(&b);
    assert!(w(map.clipped) < 1e-6 * expect, "clipped {} of {expect}", w(map.clipped));
    assert!((total(&map) - expect).abs() < 1e-6 * expect);
}

#[test]
fn time_marginal_matches_an_independent_binning() {
    let b = hard_book();
    let m = math();
    let grid = covering(&b, 96, 64, false);
    let map = mapped(&b, copy(&grid));
    let mut want = vec![0.0f64; grid.n_t()];
    for s in &b.selections {
        let env = rendered(s.atom.env, SR).env;
        let mut bins = vec![0.0f64; grid.n_t()];
        let mut all = 0.0;
        for (n, &e) in env.samples.iter().enumerate() {
            let p = v(e) as f64 * v(e) as f64;
            all += p;
            if let Some(i) = grid.t_bin(&m, d(s.atom.t0 as f64 + n as f64)) {
                bins[i] += p;
            }
        }
        // The frequency axis also clips, so scale by what the map kept there.
        let k = atom_kernel(&m, s, f(SR), &grid, &MapOptions::default()).unwrap().unwrap();
        let f_kept: f64 = k.freq.iter().map(|&x| w(x)).sum();
        for (out, bin) in want.iter_mut().zip(&bins) {
            *out += w(s.energy_removed) * (bin / all) * f_kept;
        }
    }
    let got = map.time_marginal(&m);
    let scale: f64 = want.iter().sum();
    for (i, (g, want)) in got.iter().zip(&want).enumerate() {
        assert!((w(*g) - want).abs() < 1e-9 * scale, "time bin {i}: {} vs {want}", w(*g));
    }
}

/// A Lorentzian model would pass a test of the peak alone; the level far out rules it out.
#[test]
fn frequency_marginal_has_the_right_width_centre_and_tail() {
    let (f0, alpha) = (2000.0f32, 400.0f32);
    let bw = alpha / std::f32::consts::PI;
    let b = book_of(vec![sel(4_000, f0, alpha, 0.002, 1.0)]);
    let map = mapped(&b, linear((0.0, 40_000.0), 8, (0.0, SR / 2.0), 800));
    let m: Vec<f64> = map.freq_marginal(&math()).into_iter().map(w).collect();
    let df = SR / 2.0 / 800.0;
    let peak_bin = m.iter().enumerate().max_by(|a, c| a.1.total_cmp(c.1)).unwrap().0;
    let peak_hz = (peak_bin as f32 + 0.5) * df;
    assert!((peak_hz - f0).abs() <= df, "peak at {peak_hz}, want {f0}");

    let lo = ((f0 - 4.0 * bw) / df) as usize;
    let hi = (((f0 + 4.0 * bw) / df) as usize).min(m.len() - 1);
    let (mut num, mut den) = (0.0f64, 0.0f64);
    for (j, &x) in m.iter().enumerate().take(hi + 1).skip(lo) {
        num += x * ((j as f32 + 0.5) * df) as f64;
        den += x;
    }
    let centroid = (num / den) as f32;
    assert!((centroid - f0).abs() < df, "centroid {centroid}, want {f0}");

    let peak = m[peak_bin];
    let width = m[lo..=hi].iter().filter(|&&x| x >= 0.5 * peak).count() as f32 * df;
    assert!((width - bw).abs() < 0.35 * bw, "half-power width {width} Hz, want ~{bw}");

    let far = ((f0 + 10.0 * bw) / df) as usize;
    let tail_db = 10.0 * (m[far] / peak).log10();
    assert!(tail_db < -26.0, "level at 10 half-widths is {tail_db:.1} dB");
}

#[test]
fn a_one_bin_shift_moves_the_map_one_column() {
    let bin_samples = 256i64;
    let grid = linear((0.0, (64 * bin_samples) as f64), 64, (0.0, SR / 2.0), 128);
    let a = book_of(vec![sel(8_000, 1200.0, 500.0, 0.001, 1.0)]);
    let b = book_of(vec![sel(8_000 + bin_samples, 1200.0, 500.0, 0.001, 1.0)]);
    let (ma, mb) = (mapped(&a, copy(&grid)), mapped(&b, copy(&grid)));
    let n_f = grid.n_f();
    for i in 0..grid.n_t() - 1 {
        assert_eq!(
            &ma.cells[i * n_f..(i + 1) * n_f],
            &mb.cells[(i + 1) * n_f..(i + 2) * n_f],
            "column {i} did not shift"
        );
    }
}

/// The map by direct sums: no transform, no cumulative, no interpolation.
fn naive_map(book: &Book, grid: &MapGrid, sub: usize) -> Vec<f64> {
    let (n_t, n_f) = (grid.n_t(), grid.n_f());
    let mut cells = vec![0.0f64; n_t * n_f];
    for s in &book.selections {
        let env = rendered(s.atom.env, SR).env;
        let atom = render_atom(&s.atom, SR);
        let mut time = vec![0.0f64; n_t];
        let mut t_total = 0.0f64;
        for (n, &e) in env.samples.iter().enumerate() {
            let p = v(e) as f64 * v(e) as f64;
            t_total += p;
            if let Some(i) = grid.t_bin(&math(), d(s.atom.t0 as f64 + n as f64)) {
                time[i] += p;
            }
        }
        let psd = |hz: f64| {
            let omega = std::f64::consts::TAU * hz / SR as f64;
            // A rotating phasor rather than a sine per sample.
            let (ds, dc) = omega.sin_cos();
            let (mut sn, mut cs, mut re, mut im) = (0.0f64, 1.0f64, 0.0f64, 0.0f64);
            for &x in &atom {
                re += x as f64 * cs;
                im -= x as f64 * sn;
                (sn, cs) = (sn * dc + cs * ds, cs * dc - sn * ds);
            }
            re * re + im * im
        };
        let mut freq = vec![0.0f64; n_f];
        for (j, slot) in freq.iter_mut().enumerate() {
            let (a, c) = (v(grid.f_edges[j]) as f64, v(grid.f_edges[j + 1]) as f64);
            let h = (c - a) / sub as f64;
            let inner: f64 = (1..sub).map(|m| psd(a + h * m as f64)).sum();
            *slot = (inner + 0.5 * (psd(a) + psd(c))) * h;
        }
        let f_inside: f64 = freq.iter().sum();
        for i in 0..n_t {
            let share = w(s.energy_removed) * (time[i] / t_total);
            for j in 0..n_f {
                cells[i * n_f + j] += share * freq[j] / f_inside;
            }
        }
    }
    cells
}

#[test]
fn matches_the_direct_oracle() {
    let b = book_of(vec![
        sel(2_000, 1500.0, 300.0, 0.001, 1.0),
        sel(5_000, 700.0, 1200.0, 0.002, 0.6),
        sel(3_000, 40.0, 3000.0, 0.000_5, 0.8),
    ]);
    let grid = linear((0.0, 24_000.0), 16, (0.0, SR / 2.0), 128);
    let map = mapped(&b, copy(&grid));
    let want = naive_map(&b, &grid, 16);
    let floor = want.iter().copied().fold(0.0f64, f64::max) * 1e-8;
    let (mut checked, mut worst) = (0usize, 0.0f64);
    for (g, want) in map.cells.iter().zip(&want) {
        if *want < floor {
            continue;
        }
        checked += 1;
        worst = worst.max((10.0 * (w(*g) / want).log10()).abs());
    }
    assert!(checked > 100, "only {checked} cells above the floor");
    assert!(worst < 0.2, "worst disagreement {worst:.3} dB over {checked} cells");
}

#[test]
fn log_frequency_edges_are_geometric_and_conserve_energy() {
    let b = hard_book();
    let grid = covering(&b, 64, 48, true);
    for i in 0..grid.n_f() - 1 {
        let e = |k: usize| v(grid.f_edges[k]);
        let (r0, r1) = (e(i + 1) / e(i), e(i + 2) / e(i + 1));
        assert!((r0 - r1).abs() < 1e-4 * r0, "edges not geometric: {r0} {r1}");
    }
    let map = mapped(&b, grid);
    let expect = removed(&b);
    assert!((w(map.deposited) + w(map.clipped) - expect).abs() < 1e-9 * expect);
}

#[test]
fn covering_spans_every_atom() {
    let b = hard_book();
    let grid = covering(&b, 64, 48, false);
    let min_t0 = b.selections.iter().map(|s| s.atom.t0).min().unwrap();
    assert!(w(grid.t_edges[0]) <= min_t0 as f64);
    assert!(min_t0 < 0, "the fixture is supposed to include a negative t0");
    for s in &b.selections {
        let end = s.atom.t0 + rendered(s.atom.env, SR).env.support_len() as i64;
        assert!(w(grid.t_edges[grid.n_t()]) >= end as f64);
    }
    // An empty book is given the whole band.
    let empty = covering(&book_of(vec![]), 4, 2, false);
    assert_eq!((empty.n_t(), empty.n_f()), (4, 2));
    assert_eq!((w(empty.t_edges[4]), v(empty.f_edges[2])), (1.0, 24_000.0));
}

#[test]
fn refining_the_grid_subdivides_the_same_measure() {
    let b = book_of(vec![
        sel(1_000, 1000.0, 400.0, 0.001, 1.0),
        sel(3_000, 2500.0, 1200.0, 0.002, 0.6),
    ]);
    let coarse = mapped(&b, linear((0.0, 8192.0), 32, (0.0, SR / 2.0), 128));
    let fine = mapped(&b, linear((0.0, 8192.0), 64, (0.0, SR / 2.0), 256));
    let peak = coarse.cells.iter().map(|&x| w(x)).fold(0.0f64, f64::max);
    let (mut checked, mut worst) = (0usize, 0.0f64);
    for i in 0..32 {
        for j in 0..128 {
            let want = w(coarse.cells[i * 128 + j]);
            let got: f64 = [(0, 0), (0, 1), (1, 0), (1, 1)]
                .iter()
                .map(|&(di, dj)| w(fine.cells[(2 * i + di) * 256 + 2 * j + dj]))
                .sum();
            if want < peak * 1e-8 {
                continue;
            }
            checked += 1;
            worst = worst.max((got / want - 1.0).abs());
        }
    }
    assert!(checked > 100, "only {checked} cells above the floor");
    assert!(worst < 0.01, "worst re-binning error {:.4}% over {checked} cells", worst * 100.0);
}

#[test]
fn db_is_floored_and_topped_at_zero() {
    let b = hard_book();
    let map = mapped(&b, covering(&b, 48, 32, false));
    let db: Vec<f32> = map.to_db(&math(), f(60.0), Reference::Max).into_iter().map(v).collect();
    assert!(db.iter().all(|x| (-60.0..=0.0).contains(x)));
    assert!(db.iter().any(|&x| x > -0.001), "nothing reached the top");
    assert!(db.iter().any(|&x| x <= -60.0), "nothing reached the floor");
    // Against the energy spread evenly, the loudest cells are held at the top.
    let even = map.to_db(&math(), f(60.0), Reference::Initial);
    assert!(even.iter().all(|&x| (-60.0..=0.0).contains(&v(x))));
    assert!(even.iter().filter(|&&x| v(x) == 0.0).count() > 1);
}

#[test]
fn weights_select_different_energies() {
    let mut b = book_of(vec![sel(4_000, 1000.0, 400.0, 0.001, 1.0)]);
    b.selections[0].hr_score = Some(d(w(b.selections[0].energy_removed) * 0.25));
    let grid = || linear((0.0, 24_000.0), 32, (0.0, SR / 2.0), 64);
    let by = |weight| {
        let opts = MapOptions { weight, ..MapOptions::default() };
        total(&compute(&math(), &b, grid(), &opts))
    };
    let full = by(Weight::EnergyRemoved);
    assert!((by(Weight::HrScore) / full - 0.25).abs() < 1e-9);
    assert!((by(Weight::AtomEnergy) / full - 1.0).abs() < 1e-9);
}

#[test]
fn an_unrenderable_atom_is_skipped_not_fatal() {
    let mut b = book_of(vec![
        sel(4_000, 1000.0, 400.0, 0.001, 1.0),
        sel(6_000, 1000.0, 400.0, 0.001, 1.0),
    ]);
    // Past the cliff.
    if let Shape::Fof(p) = &mut b.selections[1].atom.env {
        p.alpha = f(20_000.0);
    }
    let map = mapped(&b, linear((0.0, 24_000.0), 32, (0.0, SR / 2.0), 64));
    assert_eq!((map.atoms, map.skipped), (1, 1));
    assert!(total(&map) > 0.0);
    // A grid over the same atoms cannot be sized.
    assert!(MapGrid::covering(&math(), &b, 8, 8, false).is_err());
}

/// The kernels are computed in parallel and folded in book order.
#[test]
fn the_map_does_not_depend_on_the_thread_count() {
    let b = hard_book();
    let grid = covering(&b, 300, 200, false);
    let many = mapped(&b, copy(&grid));
    let one = rayon::ThreadPoolBuilder::new()
        .num_threads(1)
        .build()
        .unwrap()
        .install(|| mapped(&b, grid));
    assert_eq!(many.cells, one.cells);
    assert_eq!(many.deposited, one.deposited);
}

#[test]
fn an_atom_off_the_grid_is_clipped_whole() {
    let b = book_of(vec![sel(4_000, 1000.0, 400.0, 0.001, 1.0)]);
    let map = mapped(&b, linear((100_000.0, 200_000.0), 8, (0.0, SR / 2.0), 8));
    assert_eq!((map.atoms, map.skipped), (1, 0));
    assert_eq!(map.clipped, b.selections[0].energy_removed);
    assert_eq!(total(&map), 0.0);
}

/// On a log axis too, however low or high the carriers are.
#[test]
fn a_covering_grid_shows_every_carrier() {
    for carriers in [[10.0f32, 440.0], [3.0, 15.0], [25.0, 23_999.0], [10.0, 10.0]] {
        let b = book_of(carriers.iter().map(|&c| sel(500, c, 300.0, 0.001, 1.0)).collect());
        for log in [false, true] {
            let grid = covering(&b, 16, 12, log);
            assert_eq!((grid.n_t(), grid.n_f()), (16, 12));
            for s in &b.selections {
                let c = v(s.atom.f);
                assert!(v(grid.f_edges[0]) <= c, "{c} under {} ({log})", v(grid.f_edges[0]));
                assert!(c <= v(grid.f_edges[12]), "{c} over {} ({log})", v(grid.f_edges[12]));
                let end = s.atom.t0 + rendered(s.atom.env, SR).env.support_len() as i64;
                assert!(w(grid.t_edges[0]) <= s.atom.t0 as f64);
                assert!(w(grid.t_edges[16]) >= end as f64);
            }
        }
    }
}

/// A grid with another rate changes where the cells are, not what the atoms are.
#[test]
fn atoms_are_drawn_at_the_books_own_rate() {
    let b = book_of(vec![sel(2_000, 1000.0, 300.0, 0.001, 1.0)]);
    let grid = covering(&b, 64, 32, false);
    let want = mapped(&b, copy(&grid));
    let got = mapped(&b, MapGrid { sample_rate: f(SR / 2.0), ..grid });
    assert_eq!(got.cells, want.cells);
    assert_eq!(got.deposited, want.deposited);
}

/// Edges that already show everything are left as they come, rounding and all.
#[test]
fn a_covering_grid_keeps_the_edges_that_cover() {
    for carriers in [[40.0f32, 440.0], [123.4, 987.6], [1_000.0, 2_000.0], [61.7, 11_111.0]] {
        let sels: Vec<Selection> =
            carriers.iter().enumerate().map(|(i, &c)| sel(37 * i as i64, c, 300.0, 0.001, 1.0)).collect();
        let b = book_of(sels);
        let len = rendered(b.selections[0].atom.env, SR).env.support_len();
        let (t_lo, t_hi) = (0.0f64, (37 + len) as f64);
        let top = (1.25 * (carriers[1] + 300.0 / std::f32::consts::PI)).min(SR / 2.0).max(1.0);
        let lo = (0.5 * carriers[0]).max(20.0);
        for (n_t, n_f) in [(7usize, 5usize), (96, 48)] {
            let time = |i: usize| t_lo + (t_hi - t_lo) * i as f64 / n_t as f64;
            let linear = |i: usize| 0.0f32 + (top - 0.0) * i as f32 / n_f as f32;
            let log = |i: usize| (lo.ln() + (top.ln() - lo.ln()) * i as f32 / n_f as f32).exp();
            for axis in [false, true] {
                let grid = covering(&b, n_t, n_f, axis);
                for i in 1..n_t {
                    assert_eq!(w(grid.t_edges[i]), time(i));
                }
                assert_eq!(w(grid.t_edges[0]), t_lo);
                assert_eq!(w(grid.t_edges[n_t]), time(n_t).max(t_hi));
                for i in 0..=n_f {
                    let want = if axis { log(i) } else { linear(i) };
                    assert_eq!(v(grid.f_edges[i]), want, "edge {i} of {n_f}, {axis}");
                }
            }
        }
    }
}
