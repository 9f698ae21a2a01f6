//! The pursuit, driven end to end.

use realfft::RealFftPlanner;
use rmp::arith::{Gram, Params, Rendered, Scorer};
use rmp::atom::{AtomParams, Envelope, EnvelopeParams, GaussianParams, Shape};
use rmp::cache::EnvelopeCache;
use rmp::cand::{Candidate, Seed};
use rmp::config::{
    BlockSettings, Config, DictionarySettings, EnvelopeSettings, HrmpSettings, PursuitSettings,
    RefineSettings, ResidualSettings,
};
use rmp::corr::Projection;
use rmp::dict::{Bin, Block, BlockConfig, Dictionary, FofError, ReleasePolicy};
use rmp::ieee::{Double, Single};
use rmp::mp::{Candidates, Mp};
use rmp::pipeline::{dictionary_at, Analysis, AnalysisRequest, Event, Front, Listener};
use rmp::pursue::Kit;
use rmp::pursuit::{MpConfig, Selection, Verdict};
use rmp::reals::{Elementary, Reals};
use rmp::refine::RefineConfig;
use rmp::refresh::{refresh_residual, scan_frame};
use rmp::residual::math::Bands;
use rmp::subtract::{overlap, subtract, Energies, Overlap};
use rmp::units::Converted;
use rmp::window::{WindowPlan, WindowedRun};
use std::cell::RefCell;
use std::sync::Mutex;

const SR: f32 = 48_000.0;

fn d(x: f64) -> Double {
    Double { bits: x.to_bits() }
}

fn f(x: f32) -> Single {
    Single { bits: x.to_bits() }
}

fn v(x: Single) -> f32 {
    f32::from_bits(x.bits)
}

fn w(x: Double) -> f64 {
    f64::from_bits(x.bits)
}

/// The machine's own arithmetic.
fn reals() -> impl Reals + Sync {
    Elementary {
        plus: |a: Double, b: Double| d(w(a) + w(b)),
        minus: |a: Double, b: Double| d(w(a) - w(b)),
        times: |a: Double, b: Double| d(w(a) * w(b)),
        over: |a: Double, b: Double| d(w(a) / w(b)),
        root: |x: Double| d(w(x).sqrt()),
        exp: |x: Double| d(w(x).exp()),
        ln: |x: Double| d(w(x).ln()),
        log10: |x: Double| d(w(x).log10()),
        power: |a: Double, b: Double| d(w(a).powf(w(b))),
        sine: |x: Double| d(w(x).sin()),
        cosine: |x: Double| d(w(x).cos()),
        hypot: |a: Double, b: Double| d(w(a).hypot(w(b))),
        angle: |y: Double, x: Double| d(w(y).atan2(w(x))),
        floor: |x: Double| d(w(x).floor()),
        ceil: |x: Double| d(w(x).ceil()),
        round: |x: Double| d(w(x).round()),
        widen: |x: Single| d(v(x) as f64),
        narrow: |x: Double| f(w(x) as f32),
        count: |n: usize| d(n as f64),
        long: |n: i128| d(n as f64),
        huge: |n: u128| d(n as f64),
        whole: |x: Double| w(x) as usize,
        integer: |x: Double| w(x) as i64,
        byte: |x: Double| w(x) as u8,
        plus_single: |a: Single, b: Single| f(v(a) + v(b)),
        minus_single: |a: Single, b: Single| f(v(a) - v(b)),
        times_single: |a: Single, b: Single| f(v(a) * v(b)),
        over_single: |a: Single, b: Single| f(v(a) / v(b)),
        root_single: |x: Single| f(v(x).sqrt()),
        exp_single: |x: Single| f(v(x).exp()),
        ln_single: |x: Single| f(v(x).ln()),
        floor_single: |x: Single| f(v(x).floor()),
        ceil_single: |x: Single| f(v(x).ceil()),
        round_single: |x: Single| f(v(x).round()),
        count_single: |n: usize| f(n as f32),
        long_single: |n: i128| f(n as f32),
        whole_single: |x: Single| v(x) as usize,
        word_single: |x: Single| v(x) as u32,
        fixed: |x: Double, digits: u8| format!("{:.*}", digits as usize, w(x)),
        signed: |x: Double, digits: u8| format!("{:+.*}", digits as usize, w(x)),
        exponent: |x: Double, digits: u8| format!("{:.*e}", digits as usize, w(x)),
        plain: |x: Double| format!("{}", w(x)),
        plain_single: |x: Single| format!("{}", v(x)),
    }
}

/// A FOF's envelope, normalised to its peak: a raised-cosine attack over a decay, and a linear
/// release from where the decay has fallen to the release level. Beside it, where the release begins.
fn fof_envelope(p: EnvelopeParams, sr: f32) -> (Vec<f32>, usize) {
    let (alpha, beta) = (v(p.alpha) as f64, v(p.beta) as f64);
    let raw = |t: f64| {
        let attack = if t < beta { 0.5 * (1.0 - (std::f64::consts::PI * t / beta).cos()) } else { 1.0 };
        attack * (-alpha * t).exp()
    };
    let dt = 1.0 / sr as f64;
    let reach = (-(v(p.fade_level) as f64).ln() / alpha).max(beta) + beta;
    let body = (reach / dt).ceil() as usize;
    let peak = (0..body).map(|n| raw(n as f64 * dt)).fold(0.0, f64::max);
    let start = (0..body)
        .rev()
        .find(|&n| raw(n as f64 * dt) >= peak * v(p.fade_level) as f64)
        .map_or(0, |n| n + 1);
    let release = (v(p.fade_dur) as f64 / dt).round().max(1.0) as usize;
    let env = (0..start + release)
        .map(|n| {
            let fade = if n < start { 1.0 } else { 1.0 - (n - start) as f64 / release as f64 };
            (fade * raw(n as f64 * dt) / peak) as f32
        })
        .collect();
    (env, start)
}

fn rendered(shape: Shape, sr: f32) -> Rendered {
    let (samples, cut) = match shape {
        Shape::Fof(p) => fof_envelope(p, sr),
        Shape::Gaussian(g) => {
            let env: Vec<f32> =
                g.render_envelope(&reals(), f(sr)).unwrap().into_iter().map(v).collect();
            let cut = env.len();
            (env, cut)
        }
    };
    let samples = samples.into_iter().map(f).collect();
    Rendered { env: Envelope::of_samples(&reals(), shape, f(sr), samples), cut }
}

fn render_atom(a: &AtomParams, sr: f32) -> Vec<f32> {
    let e = rendered(a.env, sr).env;
    let omega = std::f64::consts::TAU * v(a.f) as f64 / sr as f64;
    let carrier = |n: usize| (v(a.phi) as f64 + omega * n as f64).sin();
    let amp = v(a.amp) as f64;
    e.samples.iter().enumerate().map(|(n, &x)| (amp * v(x) as f64 * carrier(n)) as f32).collect()
}

fn add_at(sig: &mut [f32], atom: &[f32], t0: i64) {
    for (n, &x) in atom.iter().enumerate() {
        let t = t0 + n as i64;
        if t >= 0 && (t as usize) < sig.len() {
            sig[t as usize] += x;
        }
    }
}

/// The Gram of an envelope's quadratures, and a signal's correlation with them.
fn sums(env: &[Single], sig: &[Single], t0: i64, omega: f64) -> ([f64; 3], [f64; 2]) {
    let (mut g, mut c) = ([0.0; 3], [0.0; 2]);
    for (n, &e) in env.iter().enumerate() {
        let (s, k) = (omega * n as f64).sin_cos();
        let (u, x) = (v(e) as f64 * s, v(e) as f64 * k);
        g[0] += u * u;
        g[1] += u * x;
        g[2] += x * x;
        let t = t0 + n as i64;
        if t >= 0 && (t as usize) < sig.len() {
            c[0] += u * v(sig[t as usize]) as f64;
            c[1] += x * v(sig[t as usize]) as f64;
        }
    }
    (g, c)
}

/// The closed-form amplitudes of the two quadratures and the energy they capture, or `None` where
/// the two are too alike to tell apart.
fn solved(g: [f64; 3], c: [f64; 2], rho_sq_max: f64) -> Option<(f64, f64, f64)> {
    let det = g[0] * g[2] - g[1] * g[1];
    if !(g[1] * g[1] <= rho_sq_max * g[0] * g[2]) || !(det > 0.0) {
        return None;
    }
    let a = (g[2] * c[0] - g[1] * c[1]) / det;
    let b = (g[0] * c[1] - g[1] * c[0]) / det;
    Some((a, b, a * c[0] + b * c[1]))
}

fn score(env: &[Single], sig: &[Single], t0: i64, freq: f32, sr: f32, rho: f64) -> Option<Projection> {
    let (g, c) = sums(env, sig, t0, std::f64::consts::TAU * freq as f64 / sr as f64);
    let (a, b, energy) = solved(g, c, rho)?;
    Some(Projection { energy: d(energy), amp: f(a.hypot(b) as f32), phi: f(b.atan2(a) as f32) })
}

fn singles(x: &[f32]) -> Vec<Single> {
    x.iter().map(|&x| f(x)).collect()
}

/// Rendering and scoring, with bins as alike as `rho_sq_max` told apart.
fn scorer(
    rho_sq_max: Double,
) -> Scorer<
    impl Reals + Sync,
    impl Fn(Shape) -> Option<Rendered> + Sync,
    impl Fn(&[Single], Params, &Rendered, Option<Gram>) -> Double + Sync,
    impl Fn(&Rendered, Single) -> Gram + Sync,
    impl Fn(&[Single], Params, &Rendered) -> Option<Projection> + Sync,
> {
    let omega = |freq: Single| std::f64::consts::TAU * v(freq) as f64 / SR as f64;
    Scorer {
        reals: reals(),
        render: |s: Shape| Some(rendered(s, SR)),
        region: move |sig: &[Single], p: Params, e: &Rendered, gram: Option<Gram>| {
            let (mut g, c) = sums(&e.env.samples[..e.cut], sig, p.t0, omega(p.f));
            if let Some(known) = gram {
                g = [w(known.uu), w(known.uv), w(known.vv)];
            }
            d(solved(g, c, w(rho_sq_max)).map_or(0.0, |(_, _, energy)| energy))
        },
        gram: move |e: &Rendered, freq: Single| {
            let ([uu, uv, vv], _) = sums(&e.env.samples[..e.cut], &[], 0, omega(freq));
            Gram { uu: d(uu), uv: d(uv), vv: d(vv) }
        },
        full: move |sig: &[Single], p: Params, e: &Rendered| {
            score(&e.env.samples, sig, p.t0, v(p.f), SR, w(rho_sq_max))
        },
    }
}

/// A real transform that keeps its plans.
fn transform() -> impl Fn(Vec<Single>) -> Vec<Bin> + Sync {
    let planner = Mutex::new(RealFftPlanner::<f32>::new());
    move |x: Vec<Single>| {
        let plan = planner.lock().unwrap().plan_fft_forward(x.len());
        let mut input: Vec<f32> = x.into_iter().map(v).collect();
        let mut spectrum = plan.make_output_vec();
        plan.process(&mut input, &mut spectrum).unwrap();
        spectrum.iter().map(|c| Bin { re: f(c.re), im: f(c.im) }).collect()
    }
}

fn block_config(tol: f64, f_min: f32, f_max: f32) -> BlockConfig {
    BlockConfig {
        capture_tol: d(tol),
        f_min: f(f_min),
        f_max: f(f_max),
        rho_sq_max: f(1.0 - 1e-4),
        release: ReleasePolicy {
            fade_level: f(1e-3),
            fade_dur_scale: f(0.5),
            fade_dur_min: f(0.001),
            fade_dur_max: f(0.02),
        },
    }
}

fn bin_hz(b: &Block, k: usize) -> f32 {
    v(b.bin_hz(&reals(), k))
}

fn fof(alpha: f32, beta: f32) -> Shape {
    Shape::Fof(EnvelopeParams {
        alpha: f(alpha),
        beta: f(beta),
        fade_level: f(1e-3),
        fade_dur: f((0.5 / alpha).clamp(0.001, 0.02)),
    })
}

fn gaussian(sigma: f32) -> Shape {
    Shape::Gaussian(GaussianParams::new(f(sigma)))
}

fn dictionary(shapes: &[Shape], f_min: f32, f_max: f32) -> Dictionary {
    let cfg = block_config(0.95, f_min, f_max);
    let render = |s: Shape, sr: Single| Ok::<Envelope, FofError>(rendered(s, v(sr)).env);
    Dictionary::from_shapes(&reals(), shapes, f(SR), &cfg, &render, &transform()).unwrap()
}

fn tiny_dict() -> Dictionary {
    dictionary(&[fof(2147.0, 0.0003), fof(1342.0, 0.0003)], 500.0, 6000.0)
}

/// One short FOF and one short Gaussian: the blocks' envelopes are shaped nothing alike.
fn mixed_dict() -> Dictionary {
    dictionary(&[fof(2147.0, 0.0003), gaussian(0.0004)], 500.0, 6000.0)
}

fn noise(n: usize, mut s: u64) -> Vec<f32> {
    (0..n)
        .map(|_| {
            s ^= s << 13;
            s ^= s >> 7;
            s ^= s << 17;
            (s >> 40) as f32 / 8_388_608.0 - 1.0
        })
        .collect()
}

fn energy_of(sig: &[f32]) -> f64 {
    sig.iter().map(|&x| x as f64 * x as f64).sum()
}

fn on_grid(dict: &Dictionary, block: usize, bin: usize, t0: i64, amp: f32, phi: f32) -> AtomParams {
    let b = &dict.blocks[block];
    assert!(bin >= b.k_lo && bin <= b.k_hi, "bin {bin} out of range");
    AtomParams { t0, f: f(bin_hz(b, bin)), env: b.env.params, phi: f(phi), amp: f(amp) }
}

fn from_atoms(atoms: &[AtomParams], len: usize) -> Vec<f32> {
    let mut sig = vec![0.0; len];
    for a in atoms {
        add_at(&mut sig, &render_atom(a, SR), a.t0);
    }
    sig
}

fn snr_db(initial: f64, left: f64) -> f32 {
    if left > 0.0 { (10.0 * (initial / left).log10()) as f32 } else { f32::INFINITY }
}

/// What validates a candidate's local support.
type Judge = fn(&Candidate) -> Option<Verdict>;

fn kit(
    judge: Judge,
    cancelled: bool,
) -> Kit<
    impl Reals + Sync,
    impl Fn(Shape) -> Option<Rendered> + Sync,
    impl Fn(&[Single], Params, &Rendered, Option<Gram>) -> Double + Sync,
    impl Fn(&Rendered, Single) -> Gram + Sync,
    impl Fn(&[Single], Params, &Rendered) -> Option<Projection> + Sync,
    impl Fn(Vec<Single>) -> Vec<Bin> + Sync,
    impl Fn(&[Single], Candidate) -> Option<Verdict>,
    impl Fn(AtomParams) -> Option<Vec<Single>>,
    impl Fn(Double, Double) -> Single,
    impl Fn() -> bool,
> {
    Kit {
        scorer: scorer(RefineConfig::default().rho_sq_max),
        transform: transform(),
        judge: move |_: &[Single], c: Candidate| judge(&c),
        synth: |a: AtomParams| Some(singles(&render_atom(&a, SR))),
        snr: |initial: Double, left: Double| f(snr_db(w(initial), w(left))),
        cancel: move || cancelled,
    }
}

/// A pursuit and the residual it works on.
struct Host<'a> {
    mp: Mp<'a>,
    residual: Vec<Single>,
    initial: Double,
    energies: Energies,
    cache: EnvelopeCache,
}

impl<'a> Host<'a> {
    fn new(dict: &'a Dictionary, sig: &[f32], core: usize) -> Host<'a> {
        let residual = singles(sig);
        let (mp, energies) = kit(anything, false).begin(dict, &residual, core);
        Host { mp, residual, initial: energies.core, energies, cache: EnvelopeCache::new() }
    }

    fn exact(&self, frames: &[Vec<usize>]) -> Vec<Vec<(u32, Double)>> {
        refresh_residual(&reals(), &self.mp.dict.blocks, &self.residual, frames, &transform())
    }

    fn plain(&self) -> Vec<f32> {
        self.residual.iter().map(|&x| v(x)).collect()
    }

    fn run(&mut self, cfg: &MpConfig, judge: Judge) -> Vec<Selection> {
        let (got, left) = kit(judge, false).run_with(
            &mut self.mp,
            cfg,
            &mut self.residual,
            self.initial,
            self.energies,
            &mut self.cache,
        );
        self.energies = left;
        got
    }
}

fn anything(_: &Candidate) -> Option<Verdict> {
    None
}

/// Accepts what starts on a multiple of seven, at nine tenths of its amplitude.
fn choosy(c: &Candidate) -> Option<Verdict> {
    let energy = d(0.99 * w(c.mp_score));
    Some(Verdict { accepted: c.seed.onset % 7 == 0, energy, amp: f(0.9 * v(c.atom.amp)) })
}

fn refuses(c: &Candidate) -> Option<Verdict> {
    Some(Verdict { accepted: false, energy: c.mp_score, amp: c.atom.amp })
}

fn run(dict: &Dictionary, sig: &[f32], cfg: &MpConfig) -> (Vec<Selection>, Vec<Single>) {
    let mut host = Host::new(dict, sig, sig.len());
    let got = host.run(cfg, anything);
    (got, host.residual)
}

fn atoms(n: usize) -> MpConfig {
    MpConfig { max_atoms: n, target_snr_db: f(f32::INFINITY), ..MpConfig::default() }
}

#[test]
fn incremental_update_is_bit_identical_to_full_recompute() {
    let dict = tiny_dict();
    let sig = noise(600, 0xabcd_ef01_2345_6789);
    let cfg = atoms(25);
    let (fast, fast_res) = run(&dict, &sig, &cfg);
    let (slow, slow_res) = run(&dict, &sig, &MpConfig { full_update: true, ..cfg });
    assert_eq!(fast.len(), slow.len(), "different atom counts");
    assert!(fast.len() >= 20, "only {} atoms selected", fast.len());
    for (i, (a, b)) in fast.iter().zip(&slow).enumerate() {
        assert_eq!(a, b, "selection {i} differs");
    }
    assert_eq!(fast_res, slow_res, "residuals differ");
}

/// Scoring a seed recomputes what the frame table holds, so the best is the strongest seed.
#[test]
fn candidate_count_does_not_change_selection_without_refinement() {
    let dict = tiny_dict();
    let sig = noise(600, 0x2222_3333_4444_5555);
    let base = atoms(20);
    let (one, one_res) = run(&dict, &sig, &base);
    assert!(one.len() >= 15, "only {} atoms selected", one.len());
    for k in [2, 8, 32] {
        let (many, many_res) = run(&dict, &sig, &MpConfig { candidate_count: k, ..base });
        assert_eq!(many, one, "candidate_count = {k}");
        assert_eq!(many_res, one_res, "candidate_count = {k}: residuals differ");
    }
}

#[test]
fn promoted_seeds_are_distinct_events() {
    let dict = tiny_dict();
    let b0 = &dict.blocks[0];
    let span = b0.k_hi - b0.k_lo;
    let planted: Vec<AtomParams> = [(200i64, span / 4), (1_500, span / 2), (3_000, 3 * span / 4)]
        .iter()
        .map(|&(t0, off)| on_grid(&dict, 0, b0.k_lo + off, t0, 1.0, 0.3))
        .collect();
    let sig = from_atoms(&planted, 4_000);
    let host = Host::new(&dict, &sig, sig.len());
    let Candidates::Ready(seeds) = host.mp.top_candidates(6) else {
        panic!("fresh tables have nothing to resolve");
    };
    assert!(seeds.len() >= 3, "only {} seeds", seeds.len());
    for (i, a) in seeds.iter().enumerate() {
        for b in &seeds[i + 1..] {
            assert!(
                a.block != b.block
                    || a.onset.abs_diff(b.onset) * 2 >= dict.blocks[a.block].support_len(),
                "seeds {a:?} and {b:?} are the same event"
            );
        }
    }
}

#[test]
fn the_decomposition_is_reproducible() {
    let dict = tiny_dict();
    let sig = noise(3_000, 0xd00d_1234_5678_9abc);
    let refine = RefineConfig { enabled: true, ..RefineConfig::default() };
    let cfg = MpConfig { candidate_count: 4, refine, hrmp: true, ..atoms(12) };
    let whole = || {
        let mut host = Host::new(&dict, &sig, sig.len());
        let got = host.run(&cfg, choosy);
        (got, host.residual)
    };
    let first = whole();
    assert!(first.0.len() >= 5, "only {} atoms selected", first.0.len());
    assert!(first.0.iter().all(|s| s.hr_score.is_some()));
    assert!(first.0.iter().any(|s| s.refined));
    for _ in 0..3 {
        assert_eq!(whole(), first);
    }
}

/// Every dirty frame after every atom, against a fresh exact scan.
#[test]
fn lazy_bounds_never_undercut_the_exact_value() {
    for (name, dict) in [("fof", tiny_dict()), ("mixed", mixed_dict())] {
        let sig = noise(600, 0x1eaf_1eaf_1eaf_1eaf);
            let mut host = Host::new(&dict, &sig, sig.len());
        let mut checked = 0usize;
        for step in 0..12 {
            assert_eq!(host.run(&atoms(1), anything).len(), 1, "{name} step {step}: stopped early");
            let dirty = host.mp.resolve_all();
            let exact = host.exact(&dirty);
            for (bi, (list, got)) in dirty.iter().zip(&exact).enumerate() {
                for (&n, e) in list.iter().zip(got) {
                    let bound = w(host.mp.states[bi].energy[n]);
                    assert!(w(e.1) <= bound, "{name} step {step} block {bi} frame {n}");
                    checked += 1;
                }
            }
        }
        assert!(checked > 100, "{name}: only {checked} bounds were ever checked");
        let (marked, resolved) = host.mp.lazy_stats();
        assert!(resolved < marked, "{name}: resolved every frame it bounded: {resolved}/{marked}");
        let per_block = host.mp.lazy_stats_per_block();
        assert_eq!(per_block.iter().map(|x| x.0).sum::<usize>(), marked);
        assert_eq!(per_block.iter().map(|x| x.1).sum::<usize>(), resolved);
    }
}

/// A rejected candidate sends the pursuit elsewhere: it neither stops nor spins.
#[test]
fn hrmp_rejection_demotes_the_cell_instead_of_stalling() {
    let dict = tiny_dict();
    let sig = noise(4_000, 0x5151_2323_9999_1111);
    let cfg = MpConfig { candidate_count: 3, max_stalls: 4, hrmp: true, ..atoms(10) };
    let mut host = Host::new(&dict, &sig, sig.len());
    let book = host.run(&cfg, choosy);
    for pair in book.windows(2) {
        assert!(w(pair[1].residual_energy) < w(pair[0].residual_energy));
    }
    // With everything refused, it gives up after as many stalls as it was allowed.
    let mut host = Host::new(&dict, &sig, sig.len());
    assert!(host.run(&cfg, refuses).is_empty());
    let zeroed: usize =
        (0..2).map(|b| host.mp.frame_energy(b).iter().filter(|e| w(**e) == 0.0).count()).sum();
    assert_eq!(zeroed, 4 * 3);
}

#[test]
fn rejections_do_not_consume_the_atom_budget() {
    let dict = tiny_dict();
    let sig = noise(4_000, 0x5151_2323_9999_1111);
    let cfg = MpConfig { candidate_count: 1, max_stalls: 4096, hrmp: true, ..atoms(12) };
    let mut host = Host::new(&dict, &sig, sig.len());
    let book = host.run(&cfg, choosy);
    assert_eq!(book.len(), 12, "the budget is atoms, not iterations: got {} of 12", book.len());
    assert!(book.iter().all(|s| s.onset % 7 == 0));
}

/// The whole frame table after every single atom, which a missed frame shows in at once.
#[test]
fn stale_set_leaves_every_frame_table_identical_to_full_recompute() {
    for (name, dict) in [("fof", tiny_dict()), ("mixed", mixed_dict())] {
        let sig = noise(600, 0x0fed_cba9_8765_4321);
            let mut fast = Host::new(&dict, &sig, sig.len());
        let mut slow = Host::new(&dict, &sig, sig.len());
        let one = atoms(1);
        for step in 0..15 {
            let a = fast.run(&one, anything);
            let b = slow.run(&MpConfig { full_update: true, ..one }, anything);
            assert_eq!(a, b, "{name} step {step}: different atom");
            assert_eq!(a.len(), 1, "{name} step {step}: pursuit stopped early");
            let dirty = fast.mp.resolve_all();
            let exact = fast.exact(&dirty);
            fast.mp.resolve(&dirty, &exact);
            for bi in 0..dict.blocks.len() {
                assert_eq!(fast.mp.frame_energy(bi), slow.mp.frame_energy(bi), "{name} step {step}");
                assert_eq!(fast.mp.frame_bin(bi), slow.mp.frame_bin(bi), "{name} step {step}");
            }
        }
    }
}

#[test]
fn incremental_matches_full_recompute_on_a_planted_signal() {
    let dict = tiny_dict();
    let planted = [
        on_grid(&dict, 0, 10, 30, 1.0, 0.3),
        on_grid(&dict, 1, 20, 250, 0.8, 1.2),
        on_grid(&dict, 0, 18, 400, 0.6, 2.4),
    ];
    let sig = from_atoms(&planted, 700);
    let (fast, _) = run(&dict, &sig, &atoms(15));
    let (slow, _) = run(&dict, &sig, &MpConfig { full_update: true, ..atoms(15) });
    assert_eq!(fast, slow);
}

/// Dividing a refresh by transform samples computes what scanning frame by frame does.
#[test]
fn a_divided_refresh_matches_one_frame_at_a_time() {
    let dict = dictionary(&[fof(40.0, 0.001), fof(300.0, 0.002), fof(2147.0, 0.0003)], 100.0, 6000.0);
    let sig: Vec<Single> = noise(60_000, 11).into_iter().map(f).collect();
    // Every block's frames, thinned so that the direct scan stays quick.
    let frames: Vec<Vec<usize>> = dict
        .blocks
        .iter()
        .enumerate()
        .map(|(bi, b)| (0..b.frame_count(sig.len())).filter(|n| n % (8 * (bi + 1)) == 0).collect())
        .collect();
    let work: usize = frames.iter().zip(&dict.blocks).map(|(l, b)| l.len() * b.fft_len).sum();
    assert!(work >= 1 << 16, "the fixture must take the divided path");
    let (r, t) = (reals(), transform());
    let expected: Vec<Vec<(u32, Double)>> = dict
        .blocks
        .iter()
        .zip(&frames)
        .map(|(b, list)| list.iter().map(|&n| scan_frame(&r, b, &sig, &t, n)).collect())
        .collect();
    for pass in 0..2 {
        assert!(refresh_residual(&r, &dict.blocks, &sig, &frames, &t) == expected, "pass {pass}");
    }
}

#[test]
fn stale_range_matches_the_overlap_definition() {
    let dict = tiny_dict();
    let sig = noise(800, 1);
    let mp = Host::new(&dict, &sig, sig.len()).mp;
    for bi in 0..dict.blocks.len() {
        let block = &dict.blocks[bi];
        let frames = block.frame_count(sig.len());
        for &tau in &[0usize, 1, 37, 200, 500, 799] {
            for &atom_len in &[1usize, 50, 300] {
                let want: Vec<usize> = (0..frames)
                    .filter(|&n| {
                        let start = block.frame_onset(n);
                        let end = start + block.support_len();
                        start < tau + atom_len && end > tau
                    })
                    .collect();
                let got = mp.stale_range(bi, tau, atom_len);
                match (want.first(), want.last()) {
                    (Some(&lo), Some(&hi)) => {
                        assert_eq!(got, Some((lo, hi)), "block {bi} tau {tau} len {atom_len}");
                        assert_eq!(want.len(), hi - lo + 1);
                    }
                    _ => assert_eq!(got, None, "block {bi} tau {tau} len {atom_len}"),
                }
            }
        }
    }
}

fn reconstruction(sig: &[f32], left: &[Single]) -> f32 {
    let left: Vec<f32> = left.iter().map(|&x| v(x)).collect();
    snr_db(energy_of(sig), energy_of(&left))
}

#[test]
fn recovers_planted_atoms() {
    let dict = tiny_dict();
    // On the block's own hop grid.
    let hop = dict.blocks[0].hop;
    let (t0, t1) = (40 / hop * hop, 300 / hop * hop);
    let planted =
        [on_grid(&dict, 0, 12, t0 as i64, 1.0, 0.5), on_grid(&dict, 0, 24, t1 as i64, 0.7, 1.9)];
    let sig = from_atoms(&planted, 600);
    let cfg = MpConfig { max_atoms: 10, target_snr_db: f(40.0), ..MpConfig::default() };
    let (book, left) = run(&dict, &sig, &cfg);
    assert!(reconstruction(&sig, &left) > 30.0);
    let onsets: Vec<usize> = book.iter().take(2).map(|s| s.onset).collect();
    assert!(onsets.contains(&t0), "missed onset {t0}, got {onsets:?}");
    assert!(onsets.contains(&t1), "missed onset {t1}, got {onsets:?}");
}

#[test]
fn recovers_planted_atoms_of_both_kinds() {
    let dict = mixed_dict();
    let (hf, hg) = (dict.blocks[0].hop, dict.blocks[1].hop);
    let (t_f, t_g) = (40 / hf * hf, 300 / hg * hg);
    let planted =
        [on_grid(&dict, 0, 12, t_f as i64, 1.0, 0.5), on_grid(&dict, 1, 8, t_g as i64, 0.7, 1.9)];
    let sig = from_atoms(&planted, 600);
    let cfg = MpConfig { max_atoms: 10, target_snr_db: f(40.0), ..MpConfig::default() };
    let (book, left) = run(&dict, &sig, &cfg);
    assert!(reconstruction(&sig, &left) > 30.0);
    let first: Vec<(usize, usize)> = book.iter().take(2).map(|s| (s.block, s.onset)).collect();
    assert!(first.contains(&(0, t_f)), "missed the FOF at {t_f}, got {first:?}");
    assert!(first.contains(&(1, t_g)), "missed the gaussian at {t_g}, got {first:?}");
    for s in book.iter().take(2) {
        assert_eq!(s.atom.kind(), dict.blocks[s.block].env.kind());
    }
}

/// Brute force: every block, onset and bin, by direct sums.
fn naive(dict: &Dictionary, sig: &[f32], n: usize) -> Vec<(usize, usize, usize, f64)> {
    let mut left = sig.to_vec();
    let mut out = vec![];
    for _ in 0..n {
        let heard = singles(&left);
        let mut best: Option<(usize, usize, usize, Projection)> = None;
        for (bi, b) in dict.blocks.iter().enumerate() {
            for onset in 0..left.len() {
                for k in b.live_bins() {
                    let freq = bin_hz(b, k);
                    if let Some(p) = score(&b.env.samples, &heard, onset as i64, freq, SR, 1.0 - 1e-4) {
                        if best.as_ref().is_none_or(|x| w(p.energy) > w(x.3.energy)) {
                            best = Some((bi, onset, k, p));
                        }
                    }
                }
            }
        }
        let (bi, onset, k, p) = best.unwrap();
        let b = &dict.blocks[bi];
        let atom =
            AtomParams { t0: onset as i64, f: f(bin_hz(b, k)), env: b.env.params, phi: p.phi, amp: f(-v(p.amp)) };
        add_at(&mut left, &render_atom(&atom, SR), onset as i64);
        out.push((bi, onset, k, w(p.energy)));
    }
    out
}

fn same_as_naive(dict: &Dictionary, sig: &[f32], n: usize) -> Vec<Selection> {
    let (fast, _) = run(dict, sig, &atoms(n));
    let slow = naive(dict, sig, n);
    assert_eq!(fast.len(), slow.len());
    for (i, (a, b)) in fast.iter().zip(&slow).enumerate() {
        assert_eq!((a.block, a.onset, a.bin), (b.0, b.1, b.2), "atom {i}");
        let rel = (w(a.projected_energy) - b.3).abs() / b.3.abs().max(1e-12);
        assert!(rel < 1e-3, "atom {i}: energy {} vs {}", w(a.projected_energy), b.3);
    }
    fast
}

#[test]
fn matches_the_naive_oracle_on_a_mixed_dictionary() {
    let mut dict = dictionary(&[fof(2147.0, 0.0003), gaussian(0.0004)], 1000.0, 4000.0);
    for b in &mut dict.blocks {
        b.hop = 1;
    }
    let fast = same_as_naive(&dict, &noise(320, 0x7777_2222_3333_4444), 6);
    assert!(fast.iter().any(|s| s.block == 0) && fast.iter().any(|s| s.block == 1));
}

#[test]
fn matches_the_naive_oracle_when_hop_is_one() {
    let mut dict = dictionary(&[fof(2147.0, 0.0003)], 1000.0, 4000.0);
    dict.blocks[0].hop = 1;
    same_as_naive(&dict, &noise(320, 0x1111_2222_3333_4444), 5);
}

#[test]
fn residual_energy_decreases_and_matches_recomputation() {
    let dict = tiny_dict();
    let sig = noise(500, 0x9999_8888_7777_6666);
    let mut host = Host::new(&dict, &sig, sig.len());
    let book = host.run(&atoms(20), anything);
    let initial = energy_of(&sig);
    let mut prev = initial;
    for s in &book {
        let e = w(s.residual_energy);
        assert!(e < prev, "energy rose {prev} -> {e}");
        assert!((prev - e - w(s.energy_removed)).abs() < 1e-9 * initial);
        prev = e;
    }
    let recomputed = energy_of(&host.plain());
    assert!((recomputed - prev).abs() < 1e-6 * initial, "incremental {prev} vs {recomputed}");
}

#[test]
fn stops_at_the_snr_target() {
    let dict = tiny_dict();
    let sig = from_atoms(&[on_grid(&dict, 0, 15, 50, 1.0, 0.0)], 500);
    let (book, left) =
        run(&dict, &sig, &MpConfig { target_snr_db: f(20.0), ..MpConfig::default() });
    assert!(reconstruction(&sig, &left) >= 20.0);
    assert!(book.len() < 5, "took {} atoms to reach 20 dB", book.len());
}

#[test]
fn silence_selects_nothing() {
    let (book, _) = run(&tiny_dict(), &vec![0.0; 300], &MpConfig::default());
    assert!(book.is_empty(), "selected {} atoms from silence", book.len());
}

fn planned(dict: &Dictionary, len: usize, cfg: &MpConfig, budget: usize, core: Option<usize>) -> WindowPlan {
    WindowPlan::new(&reals(), dict, len, cfg, budget, core)
}

/// An event in words.
fn line(e: Event<'_>) -> String {
    match e {
        Event::Dictionary { dict, elapsed } => format!("{} blocks in {elapsed}", dict.blocks.len()),
        Event::Windows { plan } => format!("{} windows", plan.count),
        Event::Window { index, of, atoms } => format!("{index}/{of}: {atoms}"),
    }
}

/// A run a window at a time, and what was said of it.
fn windowed_aloud(
    dict: &Dictionary,
    sig: &[f32],
    cfg: &MpConfig,
    plan: &WindowPlan,
    cancelled: bool,
) -> (WindowedRun, Vec<String>) {
    let said = RefCell::new(vec![]);
    let mut ear = Listener::new(|e: Event<'_>| said.borrow_mut().push(line(e)));
    let got =
        kit(anything, cancelled).run_windowed(dict, singles(sig), cfg, plan, &|| 0, &mut ear);
    drop(ear);
    (got, said.into_inner())
}

/// A run a window at a time.
fn windowed(dict: &Dictionary, sig: &[f32], cfg: &MpConfig, plan: &WindowPlan) -> WindowedRun {
    kit(anything, false).run_windowed(dict, singles(sig), cfg, plan, &|| 0, &mut Listener::new(|_| {}))
}

fn left_of(run: &WindowedRun) -> Vec<f32> {
    run.residual.iter().map(|&x| v(x)).collect()
}

#[test]
fn a_signal_inside_the_budget_is_one_window_and_bit_identical() {
    let dict = tiny_dict();
    let sig = noise(4000, 0x5eed_1234_9876_0001);
    let cfg = atoms(20);
    let plan = planned(&dict, sig.len(), &cfg, 1 << 30, None);
    assert_eq!(plan.count, 1, "a small signal should not be windowed");
    let (want, want_res) = run(&dict, &sig, &cfg);
    let got = windowed(&dict, &sig, &cfg, &plan);
    assert_eq!(got.selections, want);
    assert_eq!(got.residual, want_res);
}

/// A plan of one window is one pursuit, counts and all, and is told of once.
#[test]
fn one_window_is_one_pursuit_and_is_told_of() {
    let dict = tiny_dict();
    let sig = noise(1500, 0x5eed_1234_9876_0001);
    let cfg = atoms(12);
    let plan = planned(&dict, sig.len(), &cfg, 1 << 30, None);
    let mut host = Host::new(&dict, &sig, sig.len());
    let want = host.run(&cfg, anything);
    let (got, said) = windowed_aloud(&dict, &sig, &cfg, &plan, false);
    assert_eq!(got.selections, want);
    assert_eq!(got.residual, host.residual);
    assert_eq!((got.marked, got.resolved), (host.mp.marked, host.mp.resolved));
    assert_eq!(got.per_block, host.mp.per_block);
    assert_eq!(said, vec![format!("1/1: {}", want.len())]);
}

/// Every window is told of in order, and the count of atoms ends at the run's.
#[test]
fn every_window_is_told_of_in_order() {
    let dict = tiny_dict();
    let sig = noise(4000, 0x5eed_1234_9876_0001);
    let cfg = atoms(20);
    let plan = planned(&dict, sig.len(), &cfg, 1 << 30, Some(900));
    assert!(plan.count > 2, "{} windows", plan.count);
    let (got, said) = windowed_aloud(&dict, &sig, &cfg, &plan, false);
    assert_eq!(said.len(), plan.count);
    let mut last = 0;
    for (i, told) in said.iter().enumerate() {
        let (head, atoms) = told.split_once(": ").unwrap();
        assert_eq!(head, format!("{}/{}", i + 1, plan.count));
        let atoms: usize = atoms.parse().unwrap();
        assert!(last <= atoms, "{last} atoms, and then {atoms}");
        last = atoms;
    }
    assert_eq!(last, got.selections.len());

    // A host that says stop before the first window is told of none.
    let (got, said) = windowed_aloud(&dict, &sig, &cfg, &plan, true);
    assert!(got.selections.is_empty() && said.is_empty());
}

#[test]
fn a_tighter_budget_cuts_more_windows() {
    let dict = tiny_dict();
    let cfg = MpConfig::default();
    let len = 2_000_000;
    let generous = planned(&dict, len, &cfg, 1 << 30, None);
    let tight = planned(&dict, len, &cfg, 1 << 20, None);
    assert!(tight.count > generous.count, "{} against {} windows", tight.count, generous.count);
    let bytes = |p: WindowPlan| w(p.window_bytes(&reals()));
    assert!(bytes(tight) < bytes(generous));
    for p in [generous, tight] {
        assert!(p.guard_len >= dict.blocks.iter().map(|b| b.support_len()).max().unwrap());
    }
    // A core below four guards is raised to them, and the plan says so.
    let floor = planned(&dict, len, &cfg, 0, Some(10));
    assert_eq!((floor.core_len, floor.over_budget), (4 * floor.guard_len, true));
}

#[test]
fn windowing_still_decomposes_the_signal() {
    let dict = tiny_dict();
    let sig = noise(20_000, 0x5eed_9999_1111_2222);
    let cfg = atoms(60);
    let whole = windowed(&dict, &sig, &cfg, &planned(&dict, sig.len(), &cfg, 1 << 30, None));
    let cut = windowed(&dict, &sig, &cfg, &planned(&dict, sig.len(), &cfg, 0, Some(4000)));
    assert!(cut.selections.len() > 1, "the windowed run selected {} atoms", cut.selections.len());
    let (e0, e_whole, e_cut) =
        (energy_of(&sig), energy_of(&left_of(&whole)), energy_of(&left_of(&cut)));
    assert!(e_cut < e0, "the windowed run removed no energy");
    assert!(e_cut < 2.0 * e_whole, "windowed {e_cut:.6e} against un-windowed {e_whole:.6e}");
}

#[test]
fn a_windowed_book_reads_as_one_decomposition() {
    let dict = tiny_dict();
    let sig = noise(20_000, 0x5eed_4444_5555_6666);
    let cfg = atoms(60);
    let run = windowed(&dict, &sig, &cfg, &planned(&dict, sig.len(), &cfg, 0, Some(4000)));
    let book = &run.selections;
    assert!(book.len() > 1);
    assert!(book.iter().any(|s| s.onset >= 4000), "no atom past the first core");
    let mut prev = f64::INFINITY;
    for s in book {
        assert!(w(s.residual_energy) <= prev, "residual energy rose");
        prev = w(s.residual_energy);
    }
    let measured = energy_of(&left_of(&run));
    assert!((measured - prev).abs() <= 1e-6 * measured.max(1e-30) + 1e-9, "{prev:.6e}, {measured:.6e}");
}

/// An atom that starts just inside a core is selected once, with its full support.
#[test]
fn an_atom_astride_a_core_boundary_is_selected_whole() {
    let dict = tiny_dict();
    let core = 4000usize;
    let support = dict.blocks[0].support_len();
    let t0 = core as i64 - support as i64 / 2;
    let b = &dict.blocks[0];
    let atom = on_grid(&dict, 0, (b.k_lo + b.k_hi) / 2, t0, 1.0, 0.3);
    assert!(t0 as usize + support > core, "the fixture does not cross the boundary");
    let sig = from_atoms(&[atom], 20_000);
    let cfg = MpConfig { max_atoms: 4, target_snr_db: f(40.0), ..MpConfig::default() };
    let book =
        windowed(&dict, &sig, &cfg, &planned(&dict, sig.len(), &cfg, 0, Some(core))).selections;
    assert!(!book.is_empty(), "the planted atom was not found");
    let first = book[0];
    assert!((first.atom.t0 - t0).abs() <= dict.blocks[first.block].hop as i64, "t0 {}", first.atom.t0);
    assert!(w(first.energy_removed) > 0.95 * energy_of(&sig));
}

/// A window whose guard is loud but whose core is already explained must stop.
#[test]
fn the_stopping_rule_ignores_the_guard() {
    let dict = tiny_dict();
    let core = 4000usize;
    let b = &dict.blocks[0];
    let loud = on_grid(&dict, 0, (b.k_lo + b.k_hi) / 2, core as i64 + 500, 1.0, 0.0);
    let sig = from_atoms(&[loud], 20_000);
    let cfg = MpConfig { max_atoms: 30, target_snr_db: f(20.0), ..MpConfig::default() };
    let mut host = Host::new(&dict, &sig, core);
    assert!(host.run(&cfg, anything).is_empty(), "selected from a silent core");
    assert_eq!(host.mp.core_frames(0), Some(core.div_ceil(b.hop)));
}

fn small_config() -> Config {
    let mut c = Config {
        dictionary: DictionarySettings::default(),
        envelope: EnvelopeSettings {
            fade_level: f(0.001),
            fade_dur_scale: f(1.0),
            fade_dur_min_ms: f(1.0),
            fade_dur_max_ms: f(10.0),
        },
        blocks: BlockSettings::default(),
        pursuit: PursuitSettings::default(),
        refine: RefineSettings::default(),
        hrmp: HrmpSettings { enabled: false },
        residual: ResidualSettings::default(),
    };
    c.dictionary.fof.alphas = vec![f(256.0)];
    c.dictionary.fof.betas_ms = vec![f(1.0)];
    c.dictionary.gaussian.sigmas_ms.clear();
    c.blocks.f_min = f(200.0);
    c.blocks.f_max = f(2000.0);
    c.pursuit.max_atoms = 40;
    c.pursuit.target_snr_db = f(60.0);
    c.refine.enabled = false;
    c
}

/// A document's dictionary is its shapes, FOFs first, or what is wrong with the document.
#[test]
fn a_documents_dictionary_is_its_shapes_or_its_fault() {
    let (units, bank) = (Converted { reals: reals() }, Bands { reals: reals() });
    let render = |s: Shape, sr: Single| Ok::<Envelope, FofError>(rendered(s, v(sr)).env);
    let built =
        |c: &Config| dictionary_at(&reals(), &units, &bank, c, f(SR), &render, &transform());
    let mut config = small_config();
    config.dictionary.gaussian.sigmas_ms = vec![f(3.0)];
    let dict = built(&config).unwrap();
    assert_eq!(dict.blocks.len(), 2);
    assert!(matches!(dict.blocks[0].env.params, Shape::Fof(p) if v(p.alpha) == 256.0));
    assert!(matches!(dict.blocks[1].env.params, Shape::Gaussian(g) if v(g.sigma) == 3.0 / 1000.0));

    config.dictionary.fof.alphas.clear();
    config.dictionary.gaussian.sigmas_ms.clear();
    assert!(built(&config).err().unwrap().starts_with("dictionary is empty"));

    let fails = |_: Shape, _: Single| Err::<Envelope, FofError>(FofError::Invalid("no such grain"));
    let why = dictionary_at(&reals(), &units, &bank, &small_config(), f(SR), &fails, &transform());
    assert_eq!(why.err().unwrap(), "building the dictionary: no such grain");
}

/// A whole analysis, and what was said while it ran.
fn analyse(sig: &[f32], config: &Config, cancelled: bool) -> (Result<Analysis, String>, Vec<String>) {
    let ticks = RefCell::new(0u64);
    let front = Front {
        units: Converted { reals: reals() },
        bank: Bands { reals: reals() },
        render: |s: Shape, sr: Single| Ok::<Envelope, FofError>(rendered(s, v(sr)).env),
        clock: || {
            *ticks.borrow_mut() += 5;
            *ticks.borrow()
        },
    };
    let signal = singles(sig);
    let residual = None;
    let req = AnalysisRequest { signal: &signal, sample_rate: f(SR), offset: 7, config, residual };
    let said = RefCell::new(vec![]);
    let mut ear = Listener::new(|e: Event<'_>| said.borrow_mut().push(line(e)));
    let got = kit(anything, cancelled).analyse(&front, req, &mut ear);
    drop(ear);
    (got, said.into_inner())
}

fn noisy(n: usize) -> Vec<f32> {
    let mut x = noise(n, 0x853c_49e6_748f_ea9b);
    for (i, v) in x.iter_mut().enumerate() {
        *v += 0.5 * (i as f32 * 0.05).sin();
    }
    x
}

/// Cancelling stops the search; it does not abandon the request.
#[test]
fn a_cancelled_run_selects_nothing_and_reports_that_it_was_cancelled() {
    let (got, said) = analyse(&noisy(8_000), &small_config(), true);
    let got = got.unwrap();
    assert!(got.cancelled, "the run was cancelled and must say so");
    assert!(got.book.is_empty(), "cancelled before the first atom, got {}", got.book.len());
    assert_eq!(said, vec!["1 blocks in 5".to_string(), "1/1: 0".to_string()]);
}

#[test]
fn the_same_fixture_uncancelled_does_select_atoms() {
    let (got, said) = analyse(&noisy(8_000), &small_config(), false);
    let got = got.unwrap();
    assert!(!got.cancelled);
    assert!(!got.book.is_empty(), "the fixture has nothing to decompose");
    assert_eq!(got.book.start_sample, 7);
    assert_eq!(got.book.initial_energy, d(energy_of(&noisy(8_000))));
    assert!(got.residual_book.is_none());
    // One reading of the clock is five later than the last: two readings inside the run's own two.
    let t = got.timing;
    assert_eq!((t.dictionary, t.init, t.pursuit, t.residual), (5, 5, 10, 0));
    assert_eq!(said, vec!["1 blocks in 5".to_string(), format!("1/1: {}", got.book.len())]);
}

/// Several windows are announced, and each is told of as it is done.
#[test]
fn a_windowed_analysis_says_how_it_goes() {
    let mut cfg = small_config();
    cfg.pursuit.window_seconds = f(0.25);
    let (got, said) = analyse(&noisy(30_000), &cfg, false);
    let got = got.unwrap();
    assert_eq!(said[1], "3 windows");
    assert_eq!(said.len(), 5);
    assert_eq!(said[4], format!("3/3: {}", got.book.len()));
    assert_eq!(got.timing.init, 15);
}

#[test]
fn an_analysis_without_a_dictionary_says_why() {
    let mut cfg = small_config();
    cfg.blocks.f_min = f(30_000.0);
    cfg.blocks.f_max = f(40_000.0);
    let (got, said) = analyse(&noisy(800), &cfg, false);
    let why = match got {
        Ok(_) => panic!("there is no bin at 30 kHz"),
        Err(why) => why,
    };
    assert_eq!(why, "building dictionary: empty frequency range for this block");
    assert!(said.is_empty());
}

/// Exactly the samples two ranges share.
#[test]
fn an_overlap_is_what_an_atom_and_a_residual_share() {
    assert_eq!(overlap(10, 4, 3), Some(Overlap { skip: 0, tau: 3, len: 4 }));
    assert_eq!(overlap(10, 4, -3), Some(Overlap { skip: 3, tau: 0, len: 1 }));
    assert_eq!(overlap(10, 4, 8), Some(Overlap { skip: 0, tau: 8, len: 2 }));
    assert_eq!(overlap(3, 9, -2), Some(Overlap { skip: 2, tau: 0, len: 3 }));
    for t0 in [-4, 10, i64::MIN, i64::MAX] {
        assert_eq!(overlap(10, 4, t0), None);
    }
}

#[test]
fn subtracting_takes_the_samples_and_their_energy() {
    let mut residual = singles(&[1.0, 2.0, 3.0, 4.0]);
    let atom = singles(&[9.0, 0.5, 3.0]);
    let o = overlap(4, 3, 0).unwrap();
    let e = subtract(
        &reals(),
        &mut residual,
        &atom,
        Overlap { skip: 1, tau: 1, len: 2 },
        2,
        Energies { whole: d(30.0), core: d(5.0) },
    );
    assert_eq!(o.len, 3);
    assert_eq!(residual, singles(&[1.0, 1.5, 0.0, 4.0]));
    // 2.25 - 4 inside the core, and 0 - 9 past it.
    assert_eq!((w(e.whole), w(e.core)), (30.0 - 1.75 - 9.0, 5.0 - 1.75));
}

/// A candidate starts at its seed, and is ranked by its ordinary score until validation gave it one.
#[test]
fn a_candidate_is_ranked_by_what_is_known_of_it() {
    let dict = tiny_dict();
    let b = &dict.blocks[0];
    let seed = Seed { block: 0, frame: 3, bin: b.k_lo + 2, onset: 30, energy: d(2.0) };
    let mut c = Candidate::from_seed(&reals(), seed, b, f(0.5), f(1.0), d(2.0));
    assert_eq!((c.atom.t0, c.atom.f), (30, f(bin_hz(b, b.k_lo + 2))));
    assert_eq!((c.atom.env, c.atom.amp, c.atom.phi), (b.env.params, f(0.5), f(1.0)));
    assert_eq!(c.score(), d(2.0));
    assert!(!c.refined);
    c.hr_score = Some(d(1.5));
    assert_eq!(c.score(), d(1.5));
}
