//! The residual analysis.

use rmp::ieee::{Double, Single};
use rmp::reals::{Elementary, Reals};
use rmp::residual::analyze::analyze_residual;
use rmp::residual::book::{
    ErbFilterKind, ErbNormalization, ErbSpacing, ResidualBook, ResidualErbBankDescriptor,
    ResidualPowerDescriptor, ResidualStorage, RESIDUAL_BOOK_VERSION,
};
use rmp::residual::config::{ErbBankConfig, ResidualAnalysisConfig};
use rmp::residual::erb;
use rmp::residual::erb::center_freqs;
use rmp::residual::error::ResidualAnalysisError;
use rmp::residual::filter::GammatoneBand;
use rmp::residual::math::{BankMath, Bands};
use rmp::residual::power::{detector_coeffs, ResidualPowerConfig, ResidualPowerTimeMode};
use rmp::residual::{pseudo_noise, MAX_ORDER};

fn d(x: f64) -> Double {
    Double { bits: x.to_bits() }
}

fn f(x: f32) -> Single {
    Single { bits: x.to_bits() }
}

fn v(x: Single) -> f32 {
    f32::from_bits(x.bits)
}

fn w(x: Double) -> f64 {
    f64::from_bits(x.bits)
}

/// The machine's own arithmetic.
fn reals() -> impl Reals + Sync {
    Elementary {
        plus: |a: Double, b: Double| d(w(a) + w(b)),
        minus: |a: Double, b: Double| d(w(a) - w(b)),
        times: |a: Double, b: Double| d(w(a) * w(b)),
        over: |a: Double, b: Double| d(w(a) / w(b)),
        root: |x: Double| d(w(x).sqrt()),
        exp: |x: Double| d(w(x).exp()),
        ln: |x: Double| d(w(x).ln()),
        log10: |x: Double| d(w(x).log10()),
        power: |a: Double, b: Double| d(w(a).powf(w(b))),
        sine: |x: Double| d(w(x).sin()),
        cosine: |x: Double| d(w(x).cos()),
        hypot: |a: Double, b: Double| d(w(a).hypot(w(b))),
        angle: |y: Double, x: Double| d(w(y).atan2(w(x))),
        floor: |x: Double| d(w(x).floor()),
        ceil: |x: Double| d(w(x).ceil()),
        round: |x: Double| d(w(x).round()),
        widen: |x: Single| d(v(x) as f64),
        narrow: |x: Double| f(w(x) as f32),
        count: |n: usize| d(n as f64),
        long: |n: i128| d(n as f64),
        huge: |n: u128| d(n as f64),
        whole: |x: Double| w(x) as usize,
        integer: |x: Double| w(x) as i64,
        byte: |x: Double| w(x) as u8,
        plus_single: |a: Single, b: Single| f(v(a) + v(b)),
        minus_single: |a: Single, b: Single| f(v(a) - v(b)),
        times_single: |a: Single, b: Single| f(v(a) * v(b)),
        over_single: |a: Single, b: Single| f(v(a) / v(b)),
        root_single: |x: Single| f(v(x).sqrt()),
        exp_single: |x: Single| f(v(x).exp()),
        ln_single: |x: Single| f(v(x).ln()),
        floor_single: |x: Single| f(v(x).floor()),
        ceil_single: |x: Single| f(v(x).ceil()),
        round_single: |x: Single| f(v(x).round()),
        count_single: |n: usize| f(n as f32),
        long_single: |n: i128| f(n as f32),
        whole_single: |x: Single| v(x) as usize,
        word_single: |x: Single| v(x) as u32,
        fixed: |x: Double, digits: u8| format!("{:.*}", digits as usize, w(x)),
        signed: |x: Double, digits: u8| format!("{:+.*}", digits as usize, w(x)),
        exponent: |x: Double, digits: u8| format!("{:.*e}", digits as usize, w(x)),
        plain: |x: Double| format!("{}", w(x)),
        plain_single: |x: Single| format!("{}", v(x)),
    }
}

fn bank() -> impl BankMath + Sync {
    Bands { reals: reals() }
}

fn erb_bandwidth_hz(x: f64) -> f64 {
    w(erb::erb_bandwidth_hz(&reals(), d(x)))
}

fn erb_rate(x: f64) -> f64 {
    w(erb::erb_rate(&reals(), d(x)))
}

fn erb_rate_to_hz(e: f64) -> f64 {
    w(erb::erb_rate_to_hz(&reals(), d(e)))
}

const SR: f64 = 48_000.0;

fn ws(xs: &[Double]) -> Vec<f64> {
    xs.iter().map(|&x| w(x)).collect()
}

fn ds(xs: &[f64]) -> Vec<Double> {
    xs.iter().map(|&x| d(x)).collect()
}

fn fs(xs: &[f32]) -> Vec<Single> {
    xs.iter().map(|&x| f(x)).collect()
}

fn centres(bands: usize, lo: f64, hi: f64) -> Result<Vec<f64>, ResidualAnalysisError> {
    center_freqs(&bank(), bands, d(lo), d(hi)).map(|xs| ws(&xs))
}

fn design(fc: f64, sr: f64, order: usize) -> Result<GammatoneBand, ResidualAnalysisError> {
    GammatoneBand::design(&bank(), d(fc), d(sr), order)
}

fn noise(n: usize) -> Vec<Single> {
    pseudo_noise(&bank(), n)
}

// ---------------------------------------------------------------------------------------------
// the scale
// ---------------------------------------------------------------------------------------------

#[test]
fn erb_rate_and_its_inverse_agree() {
    for &x in &[20.0, 50.0, 440.0, 1000.0, 5000.0, 20_000.0] {
        let back = erb_rate_to_hz(erb_rate(x));
        assert!((back - x).abs() < 1e-9 * x, "{x} -> {back}");
    }
    assert!((erb_bandwidth_hz(1000.0) - 132.639).abs() < 1e-3);
    assert!((erb_rate(1000.0) - 15.622).abs() < 1e-3);
    assert!((erb_bandwidth_hz(0.0) - 24.7).abs() < 1e-12);
    assert_eq!(erb_rate(0.0), 0.0);
}

#[test]
fn band_centres_are_uniform_on_erb_rate() {
    let x = centres(48, 50.0, 20_000.0).unwrap();
    assert_eq!(x.len(), 48);
    assert_eq!(x[0], 50.0);
    assert_eq!(x[47], 20_000.0);
    assert!(x.windows(2).all(|w| w[1] > w[0]), "not strictly increasing");

    let step = (erb_rate(20_000.0) - erb_rate(50.0)) / 47.0;
    for (b, &fc) in x.iter().enumerate() {
        let want = erb_rate(50.0) + step * b as f64;
        assert!((erb_rate(fc) - want).abs() < 1e-9, "band {b}: {fc} Hz");
    }
}

#[test]
fn degenerate_and_invalid_ranges() {
    assert_eq!(centres(1, 440.0, 20_000.0).unwrap(), vec![440.0]);
    assert!(centres(0, 50.0, 20_000.0).is_err());
    assert!(centres(8, 0.0, 20_000.0).is_err());
    assert!(centres(8, -1.0, 20_000.0).is_err());
    assert!(centres(8, 20_000.0, 50.0).is_err());
    assert!(centres(8, 50.0, f64::NAN).is_err());
}

// ---------------------------------------------------------------------------------------------
// the power detector
// ---------------------------------------------------------------------------------------------

fn run(a: f64, q: &[f64]) -> Vec<f64> {
    let mut p = 0.0;
    q.iter()
        .map(|&qi| {
            p = a * p + (1.0 - a) * qi;
            p
        })
        .collect()
}

fn coefficient(sr: f64, tau: f64) -> f64 {
    w(detector_coeffs(&bank(), d(sr), &[d(tau)])[0])
}

#[test]
fn constant_input_converges_to_it() {
    let (sr, tau) = (48_000.0, 2e-3);
    let a = coefficient(sr, tau);
    let n = (tau * sr) as usize;
    let p = run(a, &vec![4.0; 20 * n]);

    assert!((p[20 * n - 1] - 4.0).abs() < 1e-7, "{}", p[20 * n - 1]);
    let at_tau = p[n - 1] / 4.0;
    assert!((at_tau - (1.0 - (-1.0f64).exp())).abs() < 1e-3, "{at_tau}");
}

#[test]
fn a_burst_decays_at_the_time_constant() {
    let (sr, tau) = (48_000.0, 1e-3);
    let a = coefficient(sr, tau);
    let n = (tau * sr) as usize;
    let mut q = vec![1.0; 50 * n];
    q.extend(std::iter::repeat_n(0.0, 5 * n));
    let p = run(a, &q);

    let peak = p[50 * n - 1];
    for k in 1..=4 {
        let got = p[50 * n - 1 + k * n] / peak;
        let want = (-(k as f64)).exp();
        assert!((got - want).abs() < 1e-3 * want.max(1e-3), "at {k} tau: {got} vs {want}");
    }
}

#[test]
fn silence_stays_exactly_zero() {
    let a = coefficient(48_000.0, 2e-3);
    assert!(run(a, &vec![0.0; 1000]).iter().all(|&p| p == 0.0));
}

#[test]
fn bandwidth_relative_taus_hit_both_rails() {
    let cfg = ResidualPowerConfig::default();
    let taus = cfg.taus(&bank(), &ds(&[24.7, 200.0, 3000.0]));
    assert_eq!(taus[0], cfg.tau_max_seconds);
    assert!((w(taus[1]) - 5e-3).abs() < 1e-9, "{}", w(taus[1]));
    assert_eq!(taus[2], cfg.tau_min_seconds);

    let fixed = ResidualPowerConfig { mode: ResidualPowerTimeMode::Fixed, ..cfg };
    assert_eq!(fixed.taus(&bank(), &ds(&[24.7, 200.0, 3000.0])), ds(&[2e-3; 3]));
}

#[test]
fn the_mode_prints_as_the_document_spells_it() {
    assert_eq!(ResidualPowerTimeMode::Fixed.as_str(), "fixed");
    assert_eq!(ResidualPowerTimeMode::BandwidthRelative.as_str(), "bandwidth_relative");
}

#[test]
fn validation_names_the_field() {
    let m = bank();
    let bad = ResidualPowerConfig { tau_min_seconds: d(20e-3), ..Default::default() };
    let err = bad.validate(&m).unwrap_err().message(&m);
    assert!(err.contains("tau_min_ms") && err.contains("tau_max_ms"), "{err}");

    for cfg in [
        ResidualPowerConfig { fixed_tau_seconds: d(0.0), ..Default::default() },
        ResidualPowerConfig { bandwidth_tau_scale: d(-1.0), ..Default::default() },
        ResidualPowerConfig { tau_max_seconds: d(f64::NAN), ..Default::default() },
    ] {
        assert!(cfg.validate(&m).is_err());
    }
    assert!(ResidualPowerConfig::default().validate(&m).is_ok());
}

// ---------------------------------------------------------------------------------------------
// the settings
// ---------------------------------------------------------------------------------------------

fn why(cfg: ResidualAnalysisConfig, sr: f64) -> String {
    cfg.validate(&bank(), d(sr)).unwrap_err().message(&bank())
}

#[test]
fn the_default_bank_is_valid_at_the_usual_rates() {
    let cfg = ResidualAnalysisConfig::default();
    for sr in [44_100.0, 48_000.0, 96_000.0] {
        assert!(cfg.validate(&bank(), d(sr)).is_ok(), "{sr}");
    }
    let err = why(cfg, 32_000.0);
    assert!(err.contains("max_freq_hz") && err.contains("15680"), "{err}");
}

#[test]
fn validation_covers_every_field_the_spec_lists() {
    let base = ResidualAnalysisConfig::default();

    let too_few = ResidualAnalysisConfig { erb: ErbBankConfig { bands: 3, ..base.erb }, ..base };
    assert!(why(too_few, 48_000.0).contains("bands"));

    let bad_order =
        ResidualAnalysisConfig { erb: ErbBankConfig { filter_order: 0, ..base.erb }, ..base };
    assert!(why(bad_order, 48_000.0).contains("order"));

    let inverted = ResidualAnalysisConfig {
        erb: ErbBankConfig { min_freq_hz: d(9000.0), max_freq_hz: d(500.0), ..base.erb },
        ..base
    };
    assert!(inverted.validate(&bank(), d(48_000.0)).is_err());

    let no_update = ResidualAnalysisConfig { update_samples: 0, ..base };
    assert!(no_update.validate(&bank(), d(48_000.0)).is_err());

    assert!(base.validate(&bank(), d(0.0)).is_err());
}

#[test]
fn centres_span_the_configured_range() {
    let cfg = ErbBankConfig::default();
    let x = ws(&cfg.center_freqs(&bank()).unwrap());
    assert_eq!(x.len(), 48);
    assert_eq!((x[0], x[47]), (50.0, 20_000.0));
}

#[test]
fn every_error_says_what_is_wrong() {
    let m = bank();
    let told = |e: ResidualAnalysisError| e.message(&m);
    assert_eq!(
        told(ResidualAnalysisError::InvalidBandCount(3)),
        "residual.erb.bands = 3: at least 4 bands are needed for an ERB bank"
    );
    assert_eq!(
        told(ResidualAnalysisError::UnsupportedFilterOrder(9)),
        "residual.erb.order = 9: the gammatone cascade implements orders 1..=8"
    );
    assert_eq!(
        told(ResidualAnalysisError::InvalidSampleRate(d(-1.0))),
        "residual analysis needs a positive sample rate, got -1"
    );
    assert_eq!(
        told(ResidualAnalysisError::FilterDesignFailed("x".to_string())),
        "residual filter design failed: x"
    );
    assert_eq!(
        told(ResidualAnalysisError::FrequencyAboveNyquist {
            freq_hz: d(20_000.0),
            nyquist_hz: d(15_680.0)
        }),
        "residual.erb.max_freq_hz = 20000: at this sample rate the usable limit is 15680.0 Hz"
    );
    assert_eq!(
        told(ResidualAnalysisError::InvalidUpdateInterval {
            update_ms: d(0.001),
            sample_rate: d(48_000.0)
        }),
        "residual.update_ms = 0.001: rounds to under one sample at 48000 Hz"
    );
    assert_eq!(
        told(ResidualAnalysisError::InvalidFrequencyRange { min_hz: d(9.0), max_hz: d(5.0) }),
        "residual.erb: min_freq_hz (9) must be positive and below max_freq_hz (5)"
    );
}

// ---------------------------------------------------------------------------------------------
// the filters
// ---------------------------------------------------------------------------------------------

#[test]
fn every_band_integrates_to_unit_power() {
    let m = bank();
    for &sr in &[44_100.0, 48_000.0, 96_000.0] {
        for &fc in centres(48, 50.0, 18_000.0).unwrap().iter() {
            let mut band = design(fc, sr, 4).unwrap();
            let n = 1 << 17;
            let mut sum = 0.0f64;
            for i in 0..n {
                let h = w(band.process_sample(&m, d(if i == 0 { 1.0 } else { 0.0 })));
                sum += h * h;
            }
            assert!((sum - 1.0).abs() < 1e-9, "sr {sr}, fc {fc}: sum h^2 = {sum}");
        }
    }
}

#[test]
fn the_frequency_integral_agrees_with_parseval() {
    let m = bank();
    let band = design(1000.0, 48_000.0, 4).unwrap();
    let n = 1 << 16;
    let mean: f64 = (0..n)
        .map(|k| {
            let omega = 2.0 * std::f64::consts::PI * k as f64 / n as f64;
            w(band.magnitude_response(&m, d(omega))).powi(2)
        })
        .sum::<f64>()
        / n as f64;
    assert!((mean - 1.0).abs() < 1e-6, "mean |H|^2 = {mean}");
}

#[test]
fn every_band_is_stable_on_every_fixture() {
    let fixtures: [Vec<Single>; 4] = [
        std::iter::once(f(1.0)).chain(std::iter::repeat_n(f(0.0), 4095)).collect(),
        vec![f(0.0); 4096],
        vec![f(1.0); 4096],
        noise(4096),
    ];
    for &order in &[1usize, 2, 4, 8] {
        for &fc in centres(24, 50.0, 20_000.0).unwrap().iter() {
            let mut band = design(fc, 48_000.0, order).unwrap();
            for fixture in &fixtures {
                band.reset();
                let out = band.process_block(&bank(), fixture);
                assert!(
                    out.iter().all(|&x| v(x).is_finite()),
                    "order {order}, fc {fc}: non-finite output"
                );
            }
        }
    }
}

#[test]
fn the_response_peaks_at_the_centre_frequency() {
    let sr = 48_000.0;
    let m = bank();
    for &fc in &[100.0, 440.0, 1000.0, 5000.0, 15_000.0] {
        let band = design(fc, sr, 4).unwrap();
        let n = 200_000;
        let at = |k: usize| {
            w(band.magnitude_response(&m, d(std::f64::consts::PI * k as f64 / n as f64)))
        };
        let best = (1..n)
            .map(|k| (k, at(k)))
            .max_by(|a, b| a.1.partial_cmp(&b.1).unwrap())
            .unwrap()
            .0;
        let peak_hz = (sr / 2.0) * best as f64 / n as f64;
        let tol = (sr / 2.0) / n as f64 + 0.01 * w(band.bandwidth_hz);
        assert!((peak_hz - fc).abs() < tol, "fc {fc}: peak at {peak_hz}");
    }
}

#[test]
fn design_rejects_what_it_cannot_build() {
    assert!(design(1000.0, 48_000.0, 0).is_err());
    assert!(design(1000.0, 48_000.0, MAX_ORDER + 1).is_err());
    assert!(design(24_000.0, 48_000.0, 4).is_err());
    assert!(design(30_000.0, 48_000.0, 4).is_err());
    assert!(design(0.0, 48_000.0, 4).is_err());
    assert!(design(1000.0, 0.0, 4).is_err());
}

#[test]
fn reset_makes_the_band_repeat_itself() {
    let mut band = design(700.0, 48_000.0, 4).unwrap();
    let input = noise(1000);
    let a = band.process_block(&bank(), &input);
    band.reset();
    let b = band.process_block(&bank(), &input);
    assert_eq!(a, b);
    assert!(a.iter().any(|&x| v(x) != 0.0));
}

// ---------------------------------------------------------------------------------------------
// the book
// ---------------------------------------------------------------------------------------------

fn a_book() -> ResidualBook {
    ResidualBook {
        version: RESIDUAL_BOOK_VERSION,
        sample_rate: d(48_000.0),
        start_sample: 120,
        source_samples: 96,
        update_samples: 48,
        band_count: 3,
        frame_count: 2,
        storage: ResidualStorage::F32LinearPower,
        power: fs(&[1.0, 2.0, 3.0, 4.0, 5.0, 6.0]),
        bank: ResidualErbBankDescriptor {
            band_count: 3,
            min_freq_hz: d(50.0),
            max_freq_hz: d(16_000.0),
            filter_order: 4,
            spacing: ErbSpacing::ErbRate,
            filter_kind: ErbFilterKind::Gammatone,
            normalization: ErbNormalization::UnitNoisePower,
            center_freq_hz: ds(&[50.0, 1000.0, 16_000.0]),
            bandwidth_hz: ds(&[29.1, 132.6, 1753.0]),
            normalization_gain: ds(&[0.1, 0.2, 0.3]),
            power_detector: ResidualPowerDescriptor {
                mode: ResidualPowerTimeMode::BandwidthRelative,
                tau_seconds: ds(&[10e-3, 7.5e-3, 0.5e-3]),
            },
        },
    }
}

#[test]
fn enums_use_the_settings_document_spelling() {
    assert_eq!(ErbSpacing::ErbRate.as_str(), "erb_rate");
    assert_eq!(ErbFilterKind::Gammatone.as_str(), "gammatone");
    assert_eq!(ErbNormalization::UnitNoisePower.as_str(), "unit_noise_power");
    assert_eq!(ResidualStorage::F32LinearPower.as_str(), "f32_linear_power");
    assert_eq!(a_book().bank.power_detector.mode.as_str(), "bandwidth_relative");
}

#[test]
fn frames_index_and_locate_correctly() {
    let b = a_book();
    assert_eq!(b.frame(0), fs(&[1.0, 2.0, 3.0]).as_slice());
    assert_eq!(b.frame(1), fs(&[4.0, 5.0, 6.0]).as_slice());
    assert_eq!(b.frame_sample(0), 120);
    assert_eq!(b.frame_sample(1), 168);
    assert_eq!(ws(&b.total_power(&bank())), vec![6.0, 15.0]);
}

#[test]
fn validation_catches_a_future_version_and_a_short_matrix() {
    assert!(a_book().validate().is_ok());

    let mut newer = a_book();
    newer.version = RESIDUAL_BOOK_VERSION + 1;
    assert!(newer.validate().unwrap_err().contains("newer than this build"));

    let mut short = a_book();
    short.power.pop();
    assert!(short.validate().is_err());

    let mut ragged = a_book();
    ragged.bank.bandwidth_hz.pop();
    assert!(ragged.validate().unwrap_err().contains("bandwidth_hz"));
}

#[test]
fn a_refused_book_says_which_field() {
    let mut b = a_book();
    b.bank.center_freq_hz.pop();
    assert_eq!(
        b.validate().unwrap_err(),
        "residual book bank.center_freq_hz has 2 entries, expected 3"
    );
    let mut b = a_book();
    b.bank.normalization_gain.push(d(1.0));
    assert!(b.validate().unwrap_err().contains("normalization_gain has 4"));
    let mut b = a_book();
    b.bank.power_detector.tau_seconds.pop();
    assert!(b.validate().unwrap_err().contains("power_detector.tau_seconds has 2"));
    let mut b = a_book();
    b.bank.band_count = 4;
    assert_eq!(
        b.validate().unwrap_err(),
        "residual book bank.band_count (4) disagrees with band_count (3)"
    );
}

// ---------------------------------------------------------------------------------------------
// the analysis
// ---------------------------------------------------------------------------------------------

fn cfg(bands: usize, min_hz: f64, max_hz: f64, power: ResidualPowerConfig) -> ResidualAnalysisConfig {
    ResidualAnalysisConfig {
        enabled: true,
        update_samples: 48,
        erb: ErbBankConfig {
            bands,
            min_freq_hz: d(min_hz),
            max_freq_hz: d(max_hz),
            ..Default::default()
        },
        power,
        ..Default::default()
    }
}

fn fixed_tau(ms: f64) -> ResidualPowerConfig {
    ResidualPowerConfig {
        mode: ResidualPowerTimeMode::Fixed,
        fixed_tau_seconds: d(ms * 1e-3),
        ..Default::default()
    }
}

fn analyse(r: &[Single], start: u64, c: &ResidualAnalysisConfig) -> ResidualBook {
    analyze_residual(&bank(), r, d(SR), start, c).unwrap()
}

/// Mean power per band over the last `frac` of the book, past the detector's startup rise.
fn tail_means(book: &ResidualBook, frac: f64) -> Vec<f64> {
    let n = book.frame_count as usize;
    let from = ((1.0 - frac) * n as f64) as usize;
    let b = book.band_count as usize;
    (0..b)
        .map(|i| (from..n).map(|k| v(book.frame(k)[i]) as f64).sum::<f64>() / (n - from) as f64)
        .collect()
}

#[test]
fn frames_sit_on_the_update_grid() {
    let update_samples = ((1.0f64 * 0.001) * SR).round() as usize;
    assert_eq!(update_samples, 48);

    let mut r = vec![f(0.0); 200];
    r[0] = f(1.0);
    r[48] = f(1.0);
    r[96] = f(1.0);
    let book = analyse(&r, 1000, &cfg(8, 200.0, 8000.0, fixed_tau(2.0)));

    assert_eq!(book.frame_count, 200_usize.div_ceil(48) as u64);
    assert_eq!(book.update_samples, 48);
    assert_eq!(book.source_samples, 200);
    for k in 0..book.frame_count as usize {
        assert_eq!(book.frame_sample(k), 1000 + 48 * k as u64);
    }
    assert!(book.frame(0).iter().all(|&p| v(p) > 0.0), "frame 0 missed sample 0");
}

#[test]
fn silence_analyses_to_exact_zeros() {
    let book = analyse(&vec![f(0.0); 4800], 0, &cfg(16, 50.0, 16_000.0, fixed_tau(2.0)));
    assert_eq!(book.frame_count, 100);
    assert!(book.power.iter().all(|&p| v(p) == 0.0), "silence produced power");
}

#[test]
fn a_tone_lands_in_the_nearest_band() {
    let f0 = 1000.0;
    let n = (SR as usize) / 2;
    let r: Vec<Single> = (0..n)
        .map(|i| f((2.0 * std::f64::consts::PI * f0 * i as f64 / SR).sin() as f32))
        .collect();
    let book = analyse(&r, 0, &cfg(32, 50.0, 16_000.0, fixed_tau(20.0)));

    let mean = tail_means(&book, 0.5);
    let peak = mean
        .iter()
        .enumerate()
        .max_by(|a, b| a.1.partial_cmp(b.1).unwrap())
        .unwrap()
        .0;
    let nearest = ws(&book.bank.center_freq_hz)
        .iter()
        .enumerate()
        .min_by(|a, b| (a.1 - f0).abs().partial_cmp(&(b.1 - f0).abs()).unwrap())
        .unwrap()
        .0;
    assert_eq!(peak, nearest, "peak band {peak}, nearest band {nearest}");

    let lo = peak.saturating_sub(4);
    assert!(mean[lo..=peak].windows(2).all(|w| w[1] > w[0]), "{mean:?}");
    assert!(mean[peak..peak + 5].windows(2).all(|w| w[1] < w[0]), "{mean:?}");

    let db = |p: f64| 10.0 * (p / mean[peak]).log10();
    assert!(db(mean[0]) < -40.0, "bottom band only {:.1} dB down", db(mean[0]));
    assert!(db(mean[31]) < -40.0, "top band only {:.1} dB down", db(mean[31]));
}

#[test]
fn broadband_noise_gives_flat_normalised_bands() {
    let r = noise(2 * SR as usize);
    let book = analyse(&r, 0, &cfg(12, 200.0, 8000.0, fixed_tau(20.0)));

    let mean = tail_means(&book, 0.75);
    for (b, &p) in mean.iter().enumerate() {
        let ratio = p / (1.0 / 3.0);
        assert!(
            (0.7..1.3).contains(&ratio),
            "band {b} ({:.0} Hz): power {p:.4}, {ratio:.3} of the input variance",
            w(book.bank.center_freq_hz[b])
        );
    }
}

#[test]
fn a_transient_stays_a_transient() {
    let ms = |t: f64| (t * 1e-3 * SR) as usize;
    let (onset, burst) = (ms(50.0), ms(2.0));
    let mut r = vec![f(0.0); ms(300.0)];
    r[onset..onset + burst].copy_from_slice(&noise(burst));

    let book = analyse(&r, 0, &cfg(16, 200.0, 16_000.0, ResidualPowerConfig::default()));
    let total = ws(&book.total_power(&bank()));
    let frame_of = |samples: usize| samples / book.update_samples as usize;

    assert!(total[..frame_of(onset)].iter().all(|&p| p == 0.0));

    let peak_frame = total
        .iter()
        .enumerate()
        .max_by(|a, b| a.1.partial_cmp(b.1).unwrap())
        .unwrap()
        .0;
    let peak = total[peak_frame];
    let peak_ms = peak_frame as f64 * book.update_samples as f64 / SR * 1e3;
    assert!((50.0..55.0).contains(&peak_ms), "peak at {peak_ms:.1} ms, burst at 50.0-52.0 ms");

    let after = frame_of(onset + burst + ms(50.0));
    let down = 10.0 * (total[after] / peak).log10();
    assert!(down < -20.0, "only {down:.1} dB down 50 ms after the burst");
    assert!(
        total[frame_of(onset + burst + ms(200.0))] / peak < 1e-4,
        "still ringing 200 ms later"
    );
}

/// The parallel bank against a plainly-written serial one, bit for bit.
#[test]
fn the_parallel_bank_matches_a_serial_reference() {
    let m = bank();
    let r = noise(20_000);
    let c = cfg(24, 50.0, 16_000.0, ResidualPowerConfig::default());
    let book = analyse(&r, 0, &c);

    let centers = ws(&c.erb.center_freqs(&m).unwrap());
    let bandwidths: Vec<Double> = centers.iter().map(|&x| d(erb_bandwidth_hz(x))).collect();
    let coeffs = ws(&detector_coeffs(&m, d(SR), &c.power.taus(&m, &bandwidths)));
    let mut filters: Vec<GammatoneBand> =
        centers.iter().map(|&x| design(x, SR, c.erb.filter_order).unwrap()).collect();

    let nb = c.erb.bands;
    let nu = c.update_samples;
    let mut p = vec![0.0f64; nb];
    let mut want: Vec<Single> = Vec::with_capacity(r.len().div_ceil(nu) * nb);
    for (n, &x) in r.iter().enumerate() {
        for b in 0..nb {
            let y = w(filters[b].process_sample(&m, d(v(x) as f64)));
            p[b] = coeffs[b] * p[b] + (1.0 - coeffs[b]) * y * y;
        }
        if n % nu == 0 {
            want.extend(p.iter().map(|&x| f(x as f32)));
        }
    }
    assert_eq!(book.power, want);
}

#[test]
fn the_descriptor_records_the_resolved_bank() {
    let c = cfg(16, 50.0, 16_000.0, ResidualPowerConfig::default());
    let book = analyse(&noise(4800), 0, &c);
    let bank = &book.bank;

    assert_eq!(bank.band_count, 16);
    assert_eq!(bank.filter_order, 4);
    assert_eq!(bank.center_freq_hz.len(), 16);
    assert_eq!((w(bank.center_freq_hz[0]), w(bank.center_freq_hz[15])), (50.0, 16_000.0));
    for (b, (&fc, &bw)) in bank.center_freq_hz.iter().zip(&bank.bandwidth_hz).enumerate() {
        assert!((w(bw) - erb_bandwidth_hz(w(fc))).abs() < 1e-12, "band {b}");
        let designed = design(w(fc), SR, 4).unwrap();
        assert_eq!(bank.normalization_gain[b], designed.gain, "band {b}");
    }
    let taus = &bank.power_detector.tau_seconds;
    assert_eq!(taus[0], c.power.tau_max_seconds);
    for (b, &tau) in taus.iter().enumerate() {
        let want = (1.0 / w(bank.bandwidth_hz[b]))
            .clamp(w(c.power.tau_min_seconds), w(c.power.tau_max_seconds));
        assert_eq!(w(tau), want, "band {b}");
    }
    assert!(book.validate().is_ok());
}

#[test]
fn an_empty_residual_gives_an_empty_book() {
    let book = analyse(&[], 0, &cfg(8, 200.0, 8000.0, fixed_tau(2.0)));
    assert_eq!(book.frame_count, 0);
    assert!(book.power.is_empty());
    assert!(book.validate().is_ok());
}

#[test]
fn an_invalid_config_is_refused() {
    let mut c = cfg(8, 200.0, 8000.0, fixed_tau(2.0));
    c.erb.max_freq_hz = d(40_000.0);
    assert!(analyze_residual(&bank(), &[f(0.0); 100], d(SR), 0, &c).is_err());

    c.erb.max_freq_hz = d(8000.0);
    c.update_samples = 0;
    assert!(analyze_residual(&bank(), &[f(0.0); 100], d(SR), 0, &c).is_err());
}

/// Later samples do not reach an earlier frame.
#[test]
fn a_shorter_residual_keeps_its_leading_frames() {
    let r = noise(4_800);
    let c = cfg(8, 200.0, 8000.0, fixed_tau(2.0));
    let full = analyse(&r, 1000, &c);
    let nu = c.update_samples;
    for len in [0, 1, nu, nu + 1, 10 * nu + 3, 4_799, 4_800] {
        let part = analyse(&r[..len], 1000, &c);
        assert_eq!(part.frame_count as usize, len.div_ceil(nu));
        assert_eq!(part.power.len(), part.frame_count as usize * 8);
        assert_eq!(part.power[..], full.power[..part.power.len()]);
        assert!(part.validate().is_ok());
        for k in 0..part.frame_count as usize {
            assert_eq!(part.frame_sample(k), 1000 + (k * nu) as u64);
        }
    }
    assert!(full.validate().is_ok());
}
