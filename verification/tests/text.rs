//! What is printed and drawn.

use realfft::RealFftPlanner;
use rmp::arith::Rendered;
use rmp::atom::{AtomKind, AtomParams, Envelope, EnvelopeParams, GaussianParams, Shape};
use rmp::book::Book;
use rmp::calc::{Calc, Figures};
use rmp::chart::{f_index, histogram_chart, pixels, snr_chart, tick_edge, wv_chart};
use rmp::dict::{Block, Dictionary, FofError};
use rmp::display::{histogram_text, num, summary_line};
use rmp::ieee::{Double, Single};
use rmp::inspect::{
    caption_text, cmd_diag, cmd_hist, cmd_snr, cmd_summary, cmd_wv, histograms_text,
    marginal_table, report_accounting, Binning,
};
use rmp::mapmath::{MapFigures, MapMath};
use rmp::notation::{Notation, Written};
use rmp::pipeline::Refresh;
use rmp::pursuit::{MpConfig, Selection};
use rmp::reals::{Elementary, Reals};
use rmp::refine::RefineConfig;
use rmp::report::{
    analysis, band, block_refresh, dictionary, input, kinds_in, kinds_of, kinds_text, per_kind,
    residual_analysis, residual_levels, unrefinable, window, windows, Input, Told,
};
use rmp::residual::book::{
    ErbFilterKind, ErbNormalization, ErbSpacing, ResidualBook, ResidualErbBankDescriptor,
    ResidualPowerDescriptor, ResidualStorage, RESIDUAL_BOOK_VERSION,
};
use rmp::residual::power::ResidualPowerTimeMode;
use rmp::stats::{BlockUse, Diagnostics, Histogram, Quantity, Summary, Weight};
use rmp::structure::{
    print_diagnostics, print_partials, print_provenance, Partial, PartialDiagnostics, Provenance,
    Skipped,
};
use rmp::table::{Page, Table};
use rmp::tfmap::{compute, MapGrid, MapOptions, Reference, TfMap};
use rmp::window::WindowPlan;

const SR: f32 = 48_000.0;

fn d(x: f64) -> Double {
    Double { bits: x.to_bits() }
}

fn f(x: f32) -> Single {
    Single { bits: x.to_bits() }
}

fn v(x: Single) -> f32 {
    f32::from_bits(x.bits)
}

fn w(x: Double) -> f64 {
    f64::from_bits(x.bits)
}

/// The machine's own arithmetic.
fn reals() -> impl Reals + Sync {
    Elementary {
        plus: |a: Double, b: Double| d(w(a) + w(b)),
        minus: |a: Double, b: Double| d(w(a) - w(b)),
        times: |a: Double, b: Double| d(w(a) * w(b)),
        over: |a: Double, b: Double| d(w(a) / w(b)),
        root: |x: Double| d(w(x).sqrt()),
        exp: |x: Double| d(w(x).exp()),
        ln: |x: Double| d(w(x).ln()),
        log10: |x: Double| d(w(x).log10()),
        power: |a: Double, b: Double| d(w(a).powf(w(b))),
        sine: |x: Double| d(w(x).sin()),
        cosine: |x: Double| d(w(x).cos()),
        hypot: |a: Double, b: Double| d(w(a).hypot(w(b))),
        angle: |y: Double, x: Double| d(w(y).atan2(w(x))),
        floor: |x: Double| d(w(x).floor()),
        ceil: |x: Double| d(w(x).ceil()),
        round: |x: Double| d(w(x).round()),
        widen: |x: Single| d(v(x) as f64),
        narrow: |x: Double| f(w(x) as f32),
        count: |n: usize| d(n as f64),
        long: |n: i128| d(n as f64),
        huge: |n: u128| d(n as f64),
        whole: |x: Double| w(x) as usize,
        integer: |x: Double| w(x) as i64,
        byte: |x: Double| w(x) as u8,
        plus_single: |a: Single, b: Single| f(v(a) + v(b)),
        minus_single: |a: Single, b: Single| f(v(a) - v(b)),
        times_single: |a: Single, b: Single| f(v(a) * v(b)),
        over_single: |a: Single, b: Single| f(v(a) / v(b)),
        root_single: |x: Single| f(v(x).sqrt()),
        exp_single: |x: Single| f(v(x).exp()),
        ln_single: |x: Single| f(v(x).ln()),
        floor_single: |x: Single| f(v(x).floor()),
        ceil_single: |x: Single| f(v(x).ceil()),
        round_single: |x: Single| f(v(x).round()),
        count_single: |n: usize| f(n as f32),
        long_single: |n: i128| f(n as f32),
        whole_single: |x: Single| v(x) as usize,
        word_single: |x: Single| v(x) as u32,
        fixed: |x: Double, digits: u8| format!("{:.*}", digits as usize, w(x)),
        signed: |x: Double, digits: u8| format!("{:+.*}", digits as usize, w(x)),
        exponent: |x: Double, digits: u8| format!("{:.*e}", digits as usize, w(x)),
        plain: |x: Double| format!("{}", w(x)),
        plain_single: |x: Single| format!("{}", v(x)),
    }
}

fn approx(shape: Shape, sr: Single) -> usize {
    shape.approx_support_len(&reals(), sr)
}

fn snr(initial: Double, residual: Double) -> Single {
    f((10.0 * (w(initial) / w(residual)).log10()) as f32)
}

/// The arithmetic at a sample rate of 48 kHz. A FOF's support is the formula's.
fn calc() -> impl Calc {
    let sr = f(48_000.0);
    Figures {
        reals: reals(),
        sample_rate: sr,
        render_len: move |s: Shape| Ok::<usize, FofError>(approx(s, sr)),
        decibels: |x: Single| d(20.0 * (v(x) as f64).abs().log10()),
        snr,
    }
}

fn notation() -> impl Notation {
    Written { reals: reals() }
}

/// A FOF's envelope, normalised to its peak: a raised-cosine attack over a decay, and a linear
/// release from where the decay has fallen to the release level. Beside it, where the release begins.
fn fof_envelope(p: EnvelopeParams, sr: f32) -> (Vec<f32>, usize) {
    let (alpha, beta) = (v(p.alpha) as f64, v(p.beta) as f64);
    let raw = |t: f64| {
        let attack = if t < beta { 0.5 * (1.0 - (std::f64::consts::PI * t / beta).cos()) } else { 1.0 };
        attack * (-alpha * t).exp()
    };
    let dt = 1.0 / sr as f64;
    let reach = (-(v(p.fade_level) as f64).ln() / alpha).max(beta) + beta;
    let body = (reach / dt).ceil() as usize;
    let peak = (0..body).map(|n| raw(n as f64 * dt)).fold(0.0, f64::max);
    let start = (0..body)
        .rev()
        .find(|&n| raw(n as f64 * dt) >= peak * v(p.fade_level) as f64)
        .map_or(0, |n| n + 1);
    let release = (v(p.fade_dur) as f64 / dt).round().max(1.0) as usize;
    let env = (0..start + release)
        .map(|n| {
            let fade = if n < start { 1.0 } else { 1.0 - (n - start) as f64 / release as f64 };
            (fade * raw(n as f64 * dt) / peak) as f32
        })
        .collect();
    (env, start)
}

fn rendered(shape: Shape, sr: f32) -> Rendered {
    let (samples, cut) = match shape {
        Shape::Fof(p) => fof_envelope(p, sr),
        Shape::Gaussian(g) => {
            let env: Vec<f32> =
                g.render_envelope(&reals(), f(sr)).unwrap().into_iter().map(v).collect();
            let cut = env.len();
            (env, cut)
        }
    };
    let samples = samples.into_iter().map(f).collect();
    Rendered { env: Envelope::of_samples(&reals(), shape, f(sr), samples), cut }
}

fn render_atom(a: &AtomParams, sr: f32) -> Vec<f32> {
    let e = rendered(a.env, sr).env;
    let omega = std::f64::consts::TAU * v(a.f) as f64 / sr as f64;
    let carrier = |n: usize| (v(a.phi) as f64 + omega * n as f64).sin();
    let amp = v(a.amp) as f64;
    e.samples.iter().enumerate().map(|(n, &x)| (amp * v(x) as f64 * carrier(n)) as f32).collect()
}

/// A FOF past the cliff renders silent.
fn try_render(shape: Shape, sr: f32) -> Result<Envelope, FofError> {
    match shape {
        Shape::Fof(p) if v(p.alpha) * v(p.beta) > 10.0 => Err(FofError::SilentGrain),
        _ => Ok(rendered(shape, sr).env),
    }
}

/// An atom's power spectrum.
fn power(sel: Selection, n_fft: usize) -> Vec<Double> {
    let mut input = render_atom(&sel.atom, SR);
    input.resize(n_fft, 0.0);
    let plan = RealFftPlanner::<f32>::new().plan_fft_forward(n_fft);
    let mut spectrum = plan.make_output_vec();
    plan.process(&mut input, &mut spectrum).unwrap();
    spectrum
        .iter()
        .map(|c| d((c.re as f64) * (c.re as f64) + (c.im as f64) * (c.im as f64)))
        .collect()
}

fn math() -> impl MapMath + Sync {
    MapFigures {
        reals: reals(),
        render: |s: Shape, sr: Single| try_render(s, v(sr)),
        power: |sel: Selection, _: Single, _: usize, n_fft: usize| power(sel, n_fft),
    }
}

fn fof(alpha: f32, beta: f32) -> Shape {
    Shape::Fof(EnvelopeParams {
        alpha: f(alpha),
        beta: f(beta),
        fade_level: f(0.001),
        fade_dur: f(0.01),
    })
}

fn sel(alpha: f32, beta: f32, freq: f32, amp: f32, energy: f64) -> Selection {
    Selection {
        atom: AtomParams { t0: 0, f: f(freq), env: fof(alpha, beta), phi: f(0.0), amp: f(amp) },
        block: 0,
        onset: 0,
        bin: 1,
        projected_energy: d(energy),
        energy_removed: d(energy),
        residual_energy: d(1.0),
        hr_score: None,
        refined: false,
    }
}

fn book_of(sels: Vec<Selection>) -> Book {
    let mut b = Book::new(d(100.0), f(48_000.0));
    b.selections = sels;
    b
}

fn lines(page: &Page) -> Vec<&str> {
    page.lines.iter().map(|s| s.as_str()).collect()
}

fn told(f: impl Fn(&mut Page)) -> Vec<String> {
    let mut page = Page::new();
    f(&mut page);
    page.lines
}

#[test]
fn table_widths_come_from_the_content() {
    let mut t = Table::new(&["a", "bb"]);
    t.row(vec!["xxxx".into(), "y".into()]);
    let out = t.render("");
    let lines = lines(&out);
    assert_eq!(lines[0], "   a bb");
    assert_eq!(lines[1], "---- --");
    assert_eq!(lines[2], "xxxx  y");
}

/// Left-aligned cells at the end leave no ragged space behind, and cells past the headers are dropped.
#[test]
fn tables_align_to_the_left_where_told() {
    let mut t = Table::new(&["n", "bar"]).left_align(&[1]);
    t.row(vec!["1".into(), "##".into(), "lost".into()]);
    t.row(vec!["22".into(), "".into()]);
    assert_eq!(lines(&t.render("> ")), [">  n bar", "> -- ---", ">  1 ##", "> 22"]);
}

#[test]
fn numbers_stay_short_across_the_ranges_these_quantities_span() {
    let num = |x: f64| num(&notation(), d(x));
    assert_eq!(num(0.0), "0");
    assert_eq!(num(2147.0), "2147");
    assert_eq!(num(12.34), "12.3");
    assert_eq!(num(0.3), "0.3000");
    assert_eq!(num(1.2e-5), "1.200e-5");
    assert_eq!(num(4.8e6), "4.800e6");
    assert_eq!(num(-4.5), "-4.50");
    assert_eq!(num(f64::INFINITY), "inf");
}

/// One column of a map, from the floor up: the pixels brighten from black, the top row first.
#[test]
fn render_the_heat_ramp_is_monotone_in_luminance() {
    let db: Vec<Single> = (0..=64).map(|i| f(-60.0 + 60.0 * i as f32 / 64.0)).collect();
    let rgb = pixels(&notation(), &math(), &db, f(60.0), 1, 65);
    let lum: Vec<f64> = rgb
        .chunks(3)
        .map(|c| 0.2126 * c[0] as f64 + 0.7152 * c[1] as f64 + 0.0722 * c[2] as f64)
        .collect();
    assert_eq!(&rgb[64 * 3..], [0, 0, 0]);
    for i in 0..64 {
        assert!(lum[i] > lum[i + 1], "luminance fell at {i}");
    }
}

fn summary(n: usize, x: f64) -> Summary {
    let x = d(x);
    Summary { n, min: x, p5: x, p25: x, median: x, p75: x, p95: x, max: x, mean: x }
}

#[test]
fn a_summary_is_one_line() {
    assert_eq!(summary_line(&notation(), &summary(0, 0.0)), "  (no data)");
    assert_eq!(
        summary_line(&notation(), &summary(3, 2.5)),
        "  n 3   min 2.50   p25 2.50   median 2.50   p75 2.50   max 2.50   mean 2.50"
    );
}

fn counted() -> Histogram {
    Histogram {
        quantity: Quantity::Freq,
        edges: vec![d(0.0), d(100.0), d(200.0)],
        counts: vec![d(3.0), d(1.0)],
        below: d(0.0),
        above: d(1.0),
        skipped: d(0.0),
        inapplicable: d(2.0),
        total: d(5.0),
        log: true,
        stats: summary(4, 50.0),
    }
}

#[test]
fn a_histogram_is_a_table_with_bars() {
    let label = Quantity::Freq.label();
    let page = histogram_text(&notation(), &counted());
    let head = format!("{label}  [log]");
    let bar = "#".repeat(34);
    let third = "#".repeat(11);
    let want = [
        head.as_str(),
        "  n 4   min 50.0   p25 50.0   median 50.0   p75 50.0   max 50.0   mean 50.0",
        "   from    to weight    % bar",
        "  ----- ----- ------ ---- ----------------------------------",
        &format!("      0 100.0   3.00 60.0 {bar}"),
        &format!("  100.0 200.0   1.00 20.0 {third}"),
        "  above range: 1.00 (20.0%)",
        "  other atom kinds: 2.00 (not described by this quantity, not in the total)",
    ];
    assert_eq!(lines(&page), want);
    // Several histograms are set apart by an empty line.
    let pair = histograms_text(&notation(), &vec![counted(), counted()]);
    assert_eq!(pair.lines.len(), 2 * want.len() + 1);
    assert_eq!(pair.lines[want.len()], "");

    let chart = histogram_chart(&notation(), &counted());
    assert_eq!(chart.title, format!("{label}  (log bins)   n=4"));
    assert!((w(chart.top) - 3.24).abs() < 1e-12);
    assert_eq!(chart.ticks, 2);
    assert_eq!(chart.labels, ["0", "100.0", "200.0"]);
    assert_eq!([-3.0, 0.4, 1.6, 9.0].map(|x| tick_edge(&notation(), d(x), 3)), [0, 0, 2, 2]);
}

/// Two FOFs, which remove nine tenths of the energy between them.
fn small_book() -> Book {
    let mut a = sel(100.0, 0.001, 440.0, 0.5, 60.0);
    a.residual_energy = d(40.0);
    a.refined = true;
    let mut b = sel(400.0, 0.002, 880.0, 0.25, 30.0);
    b.atom.t0 = 480;
    b.onset = 480;
    b.residual_energy = d(10.0);
    book_of(vec![a, b])
}

#[test]
fn a_summary_reads_as_it_should() {
    let book = small_book();
    let (page, warning) = cmd_summary(&notation(), &calc(), &book, &None, &None).unwrap();
    let got = lines(&page);
    let want = [
        "book",
        "  atoms               2",
        "  sample rate         48000 Hz",
        "  span                0.000 .. 0.069 s  (0.069 s)",
        "",
        "convergence",
        "  final SNR           10.0 dB",
        "    10 dB reached at  2 atoms",
        "    20 dB              not reached",
        "    30 dB              not reached",
        "    40 dB              not reached",
        "",
        "energy",
        "  initial             1.000000e2",
        "  residual            1.000000e1",
        "  sum of atoms        100.0% of what the pursuit removed",
        "  per atom            n 2   min 30.0   p25 30.0   median 30.0   p75 60.0   max 60.0   mean 45.0",
        "",
        "pursuit",
        "  refined             1/2 (50.0%)",
        "  removed/projected   median 1.000, p5 1.000, min 1.000, max 1.000",
        "  fell short of it    0/2 atoms by more than 1%",
        "  HRMP                not run",
        "",
        "parameters",
    ];
    assert_eq!(got[..want.len()], want);
    assert_eq!(warning, None);
    // Only what the kinds in the book have.
    let labels: Vec<&str> = got[want.len()..].iter().map(|l| l[2..].split("   ").next().unwrap().trim()).collect();
    for q in [Quantity::Alpha, Quantity::Bandwidth, Quantity::Beta, Quantity::AlphaBeta, Quantity::Freq, Quantity::AmpDb] {
        assert!(labels.iter().any(|l| l.starts_with(q.label())), "{}", q.label());
    }
    assert_eq!(labels.len(), 6);
    let freq = got.iter().find(|l| l.starts_with(&format!("  {}", Quantity::Freq.label()))).unwrap();
    assert_eq!(
        *freq,
        format!(
            "  {:<22}n 2   min 440.0   p25 440.0   median 440.0   p75 880.0   max 880.0   mean 660.0",
            Quantity::Freq.label()
        )
    );
}

/// With no clamp in the path, a shortfall points at an error; with one, two records must agree.
#[test]
fn a_suspect_summary_warns() {
    let mut book = small_book();
    for s in &mut book.selections {
        s.projected_energy = d(2.0 * w(s.energy_removed));
    }
    let (_, warning) = cmd_summary(&notation(), &calc(), &book, &None, &None).unwrap();
    assert_eq!(
        warning.unwrap(),
        "rmpstat: warning: HRMP did not run, yet 5% of atoms removed under 50% of their projection \u{2014} with no clamp in the path that points at a parameter-mapping error, not a setting"
    );
    book.selections[0].hr_score = Some(d(45.0));
    let (page, warning) = cmd_summary(&notation(), &calc(), &book, &None, &None).unwrap();
    assert!(lines(&page).contains(
        &"  HRMP ran on         1/2 atoms \u{2014} the shortfall above is its amplitude clamp"
    ));
    assert!(warning.unwrap().starts_with(
        "rmpstat: warning: hr_score and energy_removed differ by up to "
    ));
}

fn residual_book() -> ResidualBook {
    let per_band = |x: f64| vec![d(x), d(2.0 * x)];
    ResidualBook {
        version: RESIDUAL_BOOK_VERSION,
        sample_rate: d(48_000.0),
        start_sample: 0,
        source_samples: 96,
        update_samples: 48,
        frame_count: 2,
        band_count: 2,
        storage: ResidualStorage::F32LinearPower,
        bank: ResidualErbBankDescriptor {
            band_count: 2,
            min_freq_hz: d(50.0),
            max_freq_hz: d(20_000.0),
            spacing: ErbSpacing::ErbRate,
            filter_kind: ErbFilterKind::Gammatone,
            filter_order: 4,
            normalization: ErbNormalization::UnitNoisePower,
            center_freq_hz: per_band(100.0),
            bandwidth_hz: per_band(30.0),
            normalization_gain: per_band(0.5),
            power_detector: ResidualPowerDescriptor {
                mode: ResidualPowerTimeMode::BandwidthRelative,
                tau_seconds: vec![d(0.01), d(0.0005)],
            },
        },
        power: vec![f(0.0); 4],
    }
}

fn diagnostics() -> Diagnostics {
    Diagnostics {
        blocks: vec![
            BlockUse { index: 0, shape: fof(100.0, 0.001), support_len: 3316, count: 3, energy_share: d(0.9) },
            BlockUse {
                index: 1,
                shape: Shape::Gaussian(GaussianParams::new(f(0.0025))),
                support_len: 893,
                count: 1,
                energy_share: d(0.1),
            },
        ],
        edge_pileup: Some("the grid ends too soon".to_owned()),
        d_ln_alpha: summary(2, 0.25),
        d_ln_beta: summary(2, 0.5),
        d_ln_sigma: summary(1, 0.125),
        d_f_hz: summary(3, 4.0),
        d_t0: summary(3, 5.0),
        off_grid_seeds: 2,
        ill_conditioned: 7,
    }
}

#[test]
fn a_summary_tells_of_the_residual_and_of_the_seeds() {
    let seeds = Some((diagnostics(), "dictionary from x.toml".to_owned()));
    let book = small_book();
    let (page, _) =
        cmd_summary(&notation(), &calc(), &book, &Some(residual_book()), &seeds).unwrap();
    let got = lines(&page);
    let at = got.iter().position(|l| *l == "residual analysis").unwrap();
    assert_eq!(
        got[at..at + 5],
        [
            "residual analysis",
            "  bank                2 ERB bands, 50 .. 20000 Hz, order 4 gammatone",
            "  frames              2 every 48 samples (1.000 ms)",
            "  power detector      bandwidth_relative, tau 0.50 .. 10.00 ms",
            "",
        ]
    );
    assert_eq!(
        got[got.len() - 5..],
        [
            "",
            "seed grid (dictionary from x.toml)",
            "  WARNING: the grid ends too soon",
            "  refinement moved    |ln a/a0| median 0.250, |ln b/b0| median 0.500",
            "  refinement moved    |ln s/s0| median 0.125",
        ]
    );
}

#[test]
fn diagnostics_read_as_they_should() {
    let page = cmd_diag(&notation(), &diagnostics(), f(0.9999), "dictionary from x.toml");
    let got = lines(&page);
    let want = [
        "dictionary from x.toml",
        "",
        "WARNING: the grid ends too soon",
        "",
        "blocks",
        "  block     kind alpha beta_ms sigma_ms support seeds    % energy %",
        "  ----- -------- ----- ------- -------- ------- ----- ---- --------",
        "      0      fof   100    1.00        -    3316     3 75.0     90.0",
        "      1 gaussian     -       -     2.50     893     1 25.0     10.0",
        "",
        "refinement drift from the seed",
        "  |ln alpha/alpha_0|  n 2   min 0.2500   p25 0.2500   median 0.2500   p75 0.2500   max 0.2500   mean 0.2500",
        "  |ln beta/beta_0|    n 2   min 0.5000   p25 0.5000   median 0.5000   p75 0.5000   max 0.5000   mean 0.5000",
        "  |ln sigma/sigma_0|  n 1   min 0.1250   p25 0.1250   median 0.1250   p75 0.1250   max 0.1250   mean 0.1250",
        "  |f - bin| Hz        n 3   min 4.00   p25 4.00   median 4.00   p75 4.00   max 4.00   mean 4.00",
        "  |t0 - onset| samp   n 3   min 5.00   p25 5.00   median 5.00   p75 5.00   max 5.00   mean 5.00",
        "  (one alpha rung is ln 1.6 = 0.470; one beta rung about ln 3.3 = 1.19)",
        "",
        "conditioning",
        "  ill-conditioned     7 atoms whose seed bin had rho^2 above 0.9999",
        "  off-grid seeds      2 \u{2014} the config probably does not match the run",
    ];
    assert_eq!(got, want);
}

#[test]
fn convergence_is_told_by_deciles() {
    let page = cmd_snr(&notation(), &calc(), &small_book()).unwrap();
    let got = lines(&page);
    assert_eq!(got[0], "convergence  (2 atoms, final 10.0 dB)");
    assert_eq!(got[1..3], ["  atoms SNR dB", "  ----- ------"]);
    assert_eq!(got[3], "      1   3.98");
    assert_eq!(got[13], "      2  10.00");
    assert_eq!(
        got[14..],
        ["    10 dB at 2 atoms", "    20 dB not reached", "    30 dB not reached", "    40 dB not reached"]
    );
    let empty = book_of(vec![]);
    assert_eq!(cmd_snr(&notation(), &calc(), &empty).err().unwrap(), "the book has no atoms");
}

#[test]
fn a_convergence_chart_holds_what_is_finite() {
    let chart = snr_chart(&notation(), &vec![f(5.0), f(f32::INFINITY), f(25.0)]).unwrap();
    assert_eq!(w(chart.atoms), 3.0);
    assert_eq!(chart.points, [(d(1.0), d(5.0)), (d(3.0), d(25.0))]);
    assert_eq!(chart.rules, [d(10.0), d(20.0)]);
    assert_eq!(w(chart.range.0), 0.0);
    assert!((w(chart.range.1) - 26.25).abs() < 1e-12);
    let why = |xs: Vec<Single>| snr_chart(&notation(), &xs).err().unwrap();
    assert_eq!(why(vec![]), "the book has no atoms to plot");
    assert_eq!(why(vec![f(f32::NAN)]), "the convergence trace has no finite values");
}

#[test]
fn quantities_are_binned_in_turn() {
    let by = Binning { bins: 4, log: None, range: None, weight: Weight::Count, fast_support: true };
    let (hs, failure) = cmd_hist(&calc(), &small_book(), &[Quantity::Freq, Quantity::Sigma], &by);
    assert!(failure.is_none());
    assert_eq!(hs.iter().map(|h| h.quantity).collect::<Vec<_>>(), [Quantity::Freq, Quantity::Sigma]);
    assert_eq!((w(hs[0].total), w(hs[1].inapplicable)), (2.0, 2.0));
}

fn map_of(book: &Book) -> TfMap {
    let m = math();
    let grid = MapGrid::linear(&m, (d(0.0), d(4800.0)), 20, (f(0.0), f(24_000.0)), 10, f(SR));
    compute(&m, book, grid, &MapOptions::default())
}

#[test]
fn a_map_reads_as_it_should() {
    let book = small_book();
    let map = map_of(&book);
    let (page, note) = cmd_wv(&notation(), &math(), &book, &map, false);
    let got = lines(&page);
    let (inside, off) = (format!("{:.6e}", w(map.deposited)), format!("{:.6e}", w(map.clipped)));
    let want = [
        "pseudo-Wigner map  20x10 cells",
        "  time              0.000 .. 0.100 s",
        "  frequency         0 .. 24000 Hz",
        "  atoms             2 drawn, 0 skipped",
        &format!("  deposited         {inside}"),
        &format!("  clipped           {off}"),
        "  book removed      9.000000e1",
        "",
        "  the map is a separable-marginal pseudo-Wigner representation: each atom",
        "  contributes the product of its exact time and frequency marginals, summed",
        "  per atom so there are no cross-terms.",
        "",
        "time marginal (deciles)",
    ];
    assert_eq!(got[..want.len()], want);
    assert_eq!(note, None, "the atoms sum to what was removed");
    let at = got.iter().position(|l| *l == "frequency marginal (deciles)").unwrap();
    assert_eq!(at, want.len() + 2 + 10 + 1);
    assert!(got[at + 3].trim_start().starts_with("0 "), "{}", got[at + 3]);

    let caption = caption_text(&notation(), &map, f(60.0));
    let share = 100.0 * w(map.deposited) / (w(map.deposited) + w(map.clipped));
    assert_eq!(
        caption,
        format!("2 atoms, {share:.1}% of the removed energy on the grid \u{2014} separable-marginal pseudo-Wigner, floor 60 dB")
    );
    let (page, _) = cmd_wv(&notation(), &math(), &book, &map, true);
    assert_eq!(page.lines[2], "  frequency         0 .. 24000 Hz (log)");
}

#[test]
fn a_marginal_is_told_in_ten_steps() {
    let v: Vec<Double> = (0..20).map(|i| d(if i < 2 { 5.0 } else { 0.0 })).collect();
    let edges: Vec<String> = (0..20).map(|i| format!("{i}")).collect();
    let page = marginal_table(&notation(), &v, &edges);
    let got = lines(&page);
    assert_eq!(got.len(), 12);
    assert_eq!(got[..4], ["  from energy     %", "  ---- ------ -----", "     0   10.0 100.0", "     2      0   0.0"]);
    assert_eq!(report_accounting(&notation(), d(1.0), d(0.0)), None);
    assert_eq!(report_accounting(&notation(), d(1.0), d(1.0)), None);
    assert_eq!(
        report_accounting(&notation(), d(3.0), d(4.0)).unwrap(),
        "rmpstat: note: atoms sum to 0.7500x what the pursuit removed \u{2014} greedy MP re-removes energy earlier atoms had already taken, so below 1 is ordinary"
    );
}

#[test]
fn a_map_chart_puts_the_highest_frequency_on_top() {
    let book = small_book();
    let map = map_of(&book);
    let chart = wv_chart(&notation(), &math(), &book, &map, f(60.0), Reference::Max, true);
    assert_eq!((w(chart.time.0), w(chart.time.1)), (0.0, 0.1));
    assert_eq!(chart.rgb.len(), 20 * 10 * 3);
    // The loudest cell is the first of the lowest row, which is the last row of the picture.
    let loudest = map.cells.iter().map(|&x| w(x)).fold(0.0, f64::max);
    assert_eq!(w(map.cells[0]), loudest);
    assert_eq!(&chart.rgb[9 * 20 * 3..9 * 20 * 3 + 3], [255, 255, 210]);
    assert_eq!(chart.marks.len(), 2);
    assert_eq!(w(chart.marks[1].0), 0.01);
    let bare = wv_chart(&notation(), &math(), &book, &map, f(60.0), Reference::Max, false);
    assert!(bare.marks.is_empty());

    let edges = vec![f(0.0), f(100.0), f(300.0)];
    let place = |hz: f32| w(f_index(&notation(), &edges, f(hz)));
    assert_eq!([-1.0, 100.0, 200.0, 301.0].map(place), [-1.0, 1.0, 1.5, -1.0]);
}

fn tiny_block(shape: Shape, support: usize) -> Block {
    let samples = vec![f(1.0); support];
    let env = Envelope { params: shape, sample_rate: f(SR), samples, energy: d(support as f64) };
    Block {
        env,
        fft_len: 64,
        hop: 4,
        k_lo: 1,
        k_hi: 1,
        inv_uu: vec![f(1.0)],
        inv_uv: vec![f(0.0)],
        inv_vv: vec![f(1.0)],
        rho: vec![f(0.0)],
    }
}

fn mixed() -> Dictionary {
    let g = Shape::Gaussian(GaussianParams::new(f(0.0025)));
    Dictionary {
        blocks: vec![tiny_block(fof(100.0, 0.001), 50), tiny_block(fof(400.0, 0.002), 20), tiny_block(g, 30)],
        sample_rate: f(SR),
    }
}

#[test]
fn a_dictionary_is_told_by_its_kinds() {
    let dict = mixed();
    let kinds = kinds_of(&dict);
    assert_eq!(kinds, [(AtomKind::Fof, 2), (AtomKind::Gaussian, 1)]);
    assert_eq!(kinds_text(&kinds), ["2 fof", "1 gaussian"]);
    assert_eq!(
        told(|p| dictionary(&dict, "1.50s", p)),
        ["dictionary: 3 blocks (2 fof, 1 gaussian) in 1.50s"]
    );
    let described: Vec<String> =
        dict.blocks.iter().map(|b| b.env.params.describe(&notation())).collect();
    let refine = RefineConfig { enabled: true, max_atom_samples: 25, ..RefineConfig::default() };
    let cfg = MpConfig { refine, ..MpConfig::default() };
    assert_eq!(
        told(|p| unrefinable(&dict, &cfg, &described, p)),
        ["  note: 2 of 3 blocks are longer than refine.max_atom_samples (25), so their atoms stay on the grid unrefined; longest support 50 samples (fof alpha 100.000 beta 1.00 ms)"]
    );
    assert!(told(|p| unrefinable(&dict, &MpConfig::default(), &described, p)).is_empty());
}

#[test]
fn windows_are_told_once_and_as_they_finish() {
    let plan = WindowPlan {
        core_len: 96_000,
        guard_len: 24_000,
        count: 3,
        bytes_per_sample: d(8.0),
        over_budget: true,
    };
    assert_eq!(
        told(|p| windows(&notation(), &plan, f(SR), 512, p)),
        [
            "windows: 3 x 2.00 s core + 0.50 s guard (0.9 MiB of frame table each, 8.00 B/sample)",
            "  selection is greedy within a window, not across the clip; target_snr_db, min_gain and max_atoms apply per window",
            "  note: a window cannot be shorter than four guards, so the core was raised to 2.00 s past what max_memory_mb (512 MiB) or window_seconds asked for. Shorten the longest atom -- a higher dictionary alpha, or a lower refine.max_atom_samples -- to window more finely",
        ]
    );
    let fits = WindowPlan { over_budget: false, ..plan };
    assert_eq!(told(|p| windows(&notation(), &fits, f(SR), 512, p)).len(), 2);
    assert_eq!(told(|p| window(2, 3, 17, p)), ["  window 2/3: 17 atoms so far"]);
    assert!(told(|p| window(1, 1, 17, p)).is_empty());
}

#[test]
fn an_input_is_told_with_its_excerpt() {
    let whole = Input {
        samples: 96_000,
        channels: 2,
        downmixed: true,
        sample_rate: f(SR),
        offset: 4_800,
        excerpt: 48_000,
    };
    assert_eq!(
        told(|p| input(&notation(), "a.wav", &whole, p)),
        [
            "a.wav: 2.00 s, 48000 Hz, 2 channel(s)",
            "  analysing 0.100-1.100 s (48000 samples from 4800)",
            "  downmixed to mono; out-of-phase content between channels partially cancels",
        ]
    );
    let all = Input { downmixed: false, channels: 1, excerpt: 96_000, offset: 0, ..whole };
    assert_eq!(
        told(|p| input(&notation(), "a.wav", &all, p)),
        ["a.wav: 2.00 s, 48000 Hz, 1 channel(s)"]
    );
}

#[test]
fn an_analysis_is_told_by_what_it_selected() {
    let mut book = small_book();
    book.selections[1].atom.env = Shape::Gaussian(GaussianParams::new(f(0.0025)));
    let dict = mixed();
    let kinds = kinds_of(&dict);
    assert_eq!(kinds_in(&book), [(AtomKind::Fof, 1), (AtomKind::Gaussian, 1)]);
    assert_eq!(
        per_kind(&notation(), &book, &kinds),
        ["1 fof (67% of the energy removed)", "1 gaussian (33% of the energy removed)"]
    );
    let refine = RefineConfig::default();
    let cfg = MpConfig { refine, ..MpConfig::default() };
    let clock = Told { pursuit: "2.00s".into(), init: "500.00ms".into(), realtime_factor: f(1.25) };
    let refresh = Refresh { marked: 200, resolved: 50, per_block: vec![(100, 25); 3], undercuts: 0 };
    let say = |book: &Book, cancelled: bool, refresh: &Refresh| {
        told(|p| {
            analysis(&notation(), &calc(), book, &dict, &cfg, &clock, cancelled, refresh, p)
        })
    };
    let head = "analysis: 2 atoms, 10.0 dB in 2.00s (init 500.00ms, 1.2x realtime)";
    assert_eq!(
        say(&book, false, &refresh),
        [
            head,
            "  refined: 1/2 atoms moved off the grid (50%)",
            "  kinds: 1 fof (67% of the energy removed), 1 gaussian (33% of the energy removed)",
            "  stopped short of the 30.0 dB target (max_atoms = 1000)",
            "  refresh: 200 frames bounded, 50 recomputed (25.0%)",
        ]
    );
    let quiet = Refresh::default();
    assert_eq!(
        say(&book, true, &quiet)[..2],
        [head, "  interrupted: the book holds only what had been selected by then"]
    );
    let empty = say(&book_of(vec![]), false, &quiet);
    assert_eq!(
        empty[1..],
        ["  warning: no atoms selected \u{2014} check the dictionary covers the signal's content"]
    );
    assert_eq!(
        told(|p| block_refresh(&notation(), 3, "fof alpha 100.000 beta 1.00 ms", 4096, (200, 50), p)),
        ["    block  3 fof alpha 100.000 beta 1.00 ms fft    4096:      200 bounded       50 recomputed ( 25.0%)  ~0 Msamples"]
    );
}

#[test]
fn residual_levels_are_relative_first() {
    assert_eq!(
        told(|p| residual_levels(&notation(), (d(-40.0), d(-20.0)), (d(-15.0), d(-3.0)), p)),
        [
            "residual: -25.0 dB rms, -17.0 dB peak relative to input",
            "  absolute: -40.0 dBFS rms, -20.0 dBFS peak (input -15.0 dBFS rms, -3.0 dBFS peak)",
        ]
    );
    let rb = residual_book();
    assert_eq!(
        told(|p| residual_analysis(&notation(), &rb, "3.00ms", f(SR), p)),
        [
            "residual analysis: 2 ERB bands, 50.0 .. 20000.0 Hz, order 4 gammatone, in 3.00ms",
            "  update: 48 samples / 1.000 ms -> 2 frames (4 values)",
            "  power:  bandwidth_relative, tau 0.50 .. 10.00 ms",
        ]
    );
    assert_eq!(
        told(|p| band(&notation(), 1, &rb, p)),
        ["       1      200.00         60.00    0.50     1.000e0"]
    );
}

#[test]
fn a_partial_book_is_told_with_its_strongest_partials() {
    let diag = PartialDiagnostics {
        input_atoms: 10,
        observations: 8,
        skipped: Skipped { no_energy: 1, bad_frequency: 0, bad_shape: 1 },
        outside_grid: 3,
        frames: 100,
        bins: 40,
        peaks: 55,
        candidate_ridges: 6,
        rejected_short: 2,
        rejected_sparse: 1,
        accepted_partials: 3,
        supporting_atoms: 6,
        unsupported_atoms: 2,
    };
    let page = print_diagnostics(&notation(), &diag);
    assert_eq!(
        lines(&page),
        [
            "input atoms      10",
            "observations     8",
            "skipped          2 (no energy 1, bad frequency 0, bad shape 1)",
            "outside grid     3",
            "grid             100 frames x 40 bins, 55 peaks",
            "candidate ridges 6",
            "  rejected short 2",
            "  rejected sparse 1",
            "partials         3",
            "supporting atoms 6 (75.0%), unsupported 2 (25.0%)",
        ]
    );
    let p = Provenance {
        format_version: 1,
        version: "0.2.0".into(),
        rmp_version: "0.1.0".into(),
        source_book: Some("dir/b.json".into()),
        sample_rate: d(48_000.0),
    };
    assert_eq!(
        lines(&print_provenance(&notation(), &p, 3)),
        [
            "partial book v1  rmp-structure 0.2.0  rmp 0.1.0",
            "source book      dir/b.json",
            "sample rate      48000 Hz",
            "partials         3",
        ]
    );
    let one = |id: u64| Partial {
        id,
        start_samples: 24_000,
        duration_samples: 48_000,
        geometric_mean_frequency_hz: d(440.0),
        frequency_std_cents: d(3.25),
        persistence: d(0.875),
        normalized_energy: d(0.25),
        significance: d(0.0125),
        points: 12,
        supporting_atoms: 7,
    };
    assert_eq!(
        lines(&print_partials(&notation(), &[one(4), one(9)], d(48_000.0), 1)),
        [
            "",
            "   id  start s    dur s       f Hz   std c persist  energy%    signif   pts atoms",
            "    4    0.500    1.000     440.00     3.2    0.88   25.000   1.25e-2    12     7",
        ]
    );
}
