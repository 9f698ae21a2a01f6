//! The settings document.

use rmp::atom::{GaussianParams, Shape};
use rmp::config::{
    check_document, check_sections, BlockSettings, Config, DictionarySettings, EnvelopeSettings,
    HrmpSettings, PursuitSettings, RefineSettings, ResidualSettings,
};
use rmp::dict::voice_grid;
use rmp::ieee::{Double, Single};
use rmp::pursuit::MpConfig;
use rmp::reals::{Elementary, Reals};
use rmp::refine::RefineConfig;
use rmp::residual::error::ResidualAnalysisError;
use rmp::residual::math::{BankMath, Bands};
use rmp::residual::power::ResidualPowerTimeMode;
use rmp::units::{Converted, Units};

fn d(x: f64) -> Double {
    Double { bits: x.to_bits() }
}

fn f(x: f32) -> Single {
    Single { bits: x.to_bits() }
}

fn v(x: Single) -> f32 {
    f32::from_bits(x.bits)
}

fn w(x: Double) -> f64 {
    f64::from_bits(x.bits)
}

/// The machine's own arithmetic.
fn reals() -> impl Reals + Sync {
    Elementary {
        plus: |a: Double, b: Double| d(w(a) + w(b)),
        minus: |a: Double, b: Double| d(w(a) - w(b)),
        times: |a: Double, b: Double| d(w(a) * w(b)),
        over: |a: Double, b: Double| d(w(a) / w(b)),
        root: |x: Double| d(w(x).sqrt()),
        exp: |x: Double| d(w(x).exp()),
        ln: |x: Double| d(w(x).ln()),
        log10: |x: Double| d(w(x).log10()),
        power: |a: Double, b: Double| d(w(a).powf(w(b))),
        sine: |x: Double| d(w(x).sin()),
        cosine: |x: Double| d(w(x).cos()),
        hypot: |a: Double, b: Double| d(w(a).hypot(w(b))),
        angle: |y: Double, x: Double| d(w(y).atan2(w(x))),
        floor: |x: Double| d(w(x).floor()),
        ceil: |x: Double| d(w(x).ceil()),
        round: |x: Double| d(w(x).round()),
        widen: |x: Single| d(v(x) as f64),
        narrow: |x: Double| f(w(x) as f32),
        count: |n: usize| d(n as f64),
        long: |n: i128| d(n as f64),
        huge: |n: u128| d(n as f64),
        whole: |x: Double| w(x) as usize,
        integer: |x: Double| w(x) as i64,
        byte: |x: Double| w(x) as u8,
        plus_single: |a: Single, b: Single| f(v(a) + v(b)),
        minus_single: |a: Single, b: Single| f(v(a) - v(b)),
        times_single: |a: Single, b: Single| f(v(a) * v(b)),
        over_single: |a: Single, b: Single| f(v(a) / v(b)),
        root_single: |x: Single| f(v(x).sqrt()),
        exp_single: |x: Single| f(v(x).exp()),
        ln_single: |x: Single| f(v(x).ln()),
        floor_single: |x: Single| f(v(x).floor()),
        ceil_single: |x: Single| f(v(x).ceil()),
        round_single: |x: Single| f(v(x).round()),
        count_single: |n: usize| f(n as f32),
        long_single: |n: i128| f(n as f32),
        whole_single: |x: Single| v(x) as usize,
        word_single: |x: Single| v(x) as u32,
        fixed: |x: Double, digits: u8| format!("{:.*}", digits as usize, w(x)),
        signed: |x: Double, digits: u8| format!("{:+.*}", digits as usize, w(x)),
        exponent: |x: Double, digits: u8| format!("{:.*e}", digits as usize, w(x)),
        plain: |x: Double| format!("{}", w(x)),
        plain_single: |x: Single| format!("{}", v(x)),
    }
}

fn bank() -> impl BankMath + Sync {
    Bands { reals: reals() }
}

fn units() -> impl Units {
    Converted { reals: reals() }
}

/// What an empty document reads as, with a release of its own.
fn base() -> Config {
    Config {
        dictionary: DictionarySettings::default(),
        envelope: EnvelopeSettings {
            fade_level: f(0.001),
            fade_dur_scale: f(1.0),
            fade_dur_min_ms: f(1.0),
            fade_dur_max_ms: f(10.0),
        },
        blocks: BlockSettings::default(),
        pursuit: PursuitSettings::default(),
        refine: RefineSettings::default(),
        hrmp: HrmpSettings { enabled: false },
        residual: ResidualSettings::default(),
    }
}

fn with(change: impl Fn(&mut Config)) -> Config {
    let mut cfg = base();
    change(&mut cfg);
    cfg
}

fn singles(xs: &[f32]) -> Vec<Single> {
    xs.iter().map(|&x| f(x)).collect()
}

fn refusal(cfg: &Config) -> Option<String> {
    cfg.validate(&units(), &bank()).err()
}

#[test]
fn empty_document_is_the_default_dictionary() {
    assert_eq!(check_document(""), Ok(()));
    let cfg = base();
    let u = units();
    // 8 decay rates by 3 attacks, less two past the cap, and no Gaussians.
    assert_eq!(cfg.dictionary.fof.grid(&u).len(), 22);
    assert_eq!(cfg.dictionary_shapes(&u).len(), 22);
    assert!(cfg.dictionary_shapes(&u).iter().all(|s| s.as_fof().is_some()));
    assert_eq!(cfg.pursuit.target_snr_db, MpConfig::default().target_snr_db);
    // The pairs are the voice grid's.
    let grid = cfg.dictionary.fof.grid(&u);
    let kept: Vec<(Single, Single)> =
        voice_grid().into_iter().filter(|(a, b)| v(*a) * v(*b) <= 4.0).collect();
    assert_eq!(grid, kept);
}

#[test]
fn partial_document_keeps_other_defaults() {
    assert_eq!(check_document("[pursuit]\nmax_atoms = 12\n"), Ok(()));
    let cfg = with(|c| c.pursuit.max_atoms = 12);
    assert_eq!(cfg.mp_config(&units()).max_atoms, 12);
    assert_eq!(v(cfg.block_config(&units()).f_max), 10_000.0);
    assert_eq!(cfg.dictionary.fof.grid(&units()).len(), 22);
}

#[test]
fn both_families_build_shapes_fof_first() {
    let cfg = with(|c| {
        c.dictionary.gaussian.sigmas_ms = singles(&[2.0, 10.0]);
        c.dictionary.gaussian.cutoff_level = f(0.01);
        c.dictionary.fof.alphas = singles(&[100.0]);
        c.dictionary.fof.betas_ms = singles(&[1.0]);
        c.envelope.fade_level = f(0.01);
    });
    assert_eq!(refusal(&cfg), None);
    let shapes = cfg.dictionary_shapes(&units());
    assert_eq!(shapes.len(), 3);
    assert_eq!(v(shapes[0].as_fof().unwrap().fade_level), 0.01);
    assert_eq!(shapes[1], Shape::Gaussian(GaussianParams { sigma: f(0.002), cutoff_level: f(0.01) }));
    assert_eq!(v(shapes[2].as_gaussian().unwrap().sigma), 0.01);
}

#[test]
fn a_gaussian_only_dictionary_is_legal_and_an_empty_one_is_not() {
    let only = with(|c| {
        c.dictionary.fof.alphas = vec![];
        c.dictionary.gaussian.sigmas_ms = singles(&[5.0]);
    });
    assert_eq!(refusal(&only), None);
    assert_eq!(only.dictionary_shapes(&units()).len(), 1);

    let none = with(|c| c.dictionary.fof.alphas = vec![]);
    assert!(refusal(&none).unwrap().starts_with("dictionary is empty: [dictionary.fof]"));
    let zero = with(|c| c.dictionary.gaussian.sigmas_ms = singles(&[0.0]));
    assert_eq!(refusal(&zero).unwrap(), "[dictionary.gaussian] sigmas_ms must be positive, got 0");
    let level = with(|c| {
        c.dictionary.gaussian.sigmas_ms = singles(&[5.0]);
        c.dictionary.gaussian.cutoff_level = f(1.0);
    });
    assert_eq!(
        refusal(&level).unwrap(),
        "[dictionary.gaussian] cutoff_level must be in (0, 1), got 1"
    );
    let inverted = with(|c| {
        c.refine.sigma_min_ms = f(10.0);
        c.refine.sigma_max_ms = f(1.0);
    });
    assert_eq!(
        refusal(&inverted).unwrap(),
        "[refine] needs 0 < sigma_min_ms <= sigma_max_ms, got 10 and 1"
    );
}

/// A document from before the families existed is told where its keys went.
#[test]
fn the_flat_dictionary_section_is_rejected_with_directions() {
    for doc in [
        "[dictionary]\nalphas = [100.0]\n",
        "[dictionary]\nbetas_ms = [1.0]\n",
        "[dictionary]\nalpha_beta_max = 4.0\n",
    ] {
        let err = check_document(doc).unwrap_err();
        assert!(err.contains("[dictionary.fof]"), "{doc}: {err}");
    }
    let err = check_document("[dictionary]\nbetas_ms = [1.0]\nalphas = [1.0]\n").unwrap_err();
    assert!(err.starts_with("[dictionary] alphas has moved to [dictionary.fof]: "), "{err}");
    assert_eq!(check_document("[dictionary.fof]\nalphas = [100.0]\n"), Ok(()));
    assert_eq!(check_document("dictionary = 4\n"), Ok(()));
}

/// What is no document at all gives the parser's own message.
#[test]
fn a_document_that_does_not_parse_is_refused() {
    let err = check_document("[dictionary\n").unwrap_err();
    assert!(err.contains("TOML parse error"), "{err}");
    let sections = [("dictionary".to_owned(), Some(vec!["alpha_beta_max".to_owned()]))];
    assert!(check_sections(&sections).unwrap_err().starts_with("[dictionary] alpha_beta_max has"));
    assert_eq!(check_sections(&[("dictionary".to_owned(), None)]), Ok(()));
}

#[test]
fn envelope_section_feeds_the_release_policy() {
    let u = units();
    let r = with(|c| {
        c.envelope.fade_level = f(0.01);
        c.envelope.fade_dur_scale = f(4.0);
        c.envelope.fade_dur_max_ms = f(20.0);
    });
    let release = r.block_config(&u).release;
    assert_eq!(v(release.fade_level), 0.01);
    assert_eq!(v(release.fade_dur_scale), 4.0);
    assert_eq!(v(release.fade_dur_max), 20e-3);
    assert_eq!(release.fade_dur_min, base().block_config(&u).release.fade_dur_min);
    assert_eq!(refusal(&r), None);
    // A FOF's release follows its decay rate, within the clamps.
    let shapes = r.dictionary_shapes(&u);
    let dur = |s: &Shape| v(s.as_fof().unwrap().fade_dur);
    assert_eq!(dur(&shapes[0]), 20e-3);
    assert_eq!(dur(shapes.last().unwrap()), 4.0 / 2147.0);

    let cfg = with(|c| c.blocks.f_max = f(8000.0));
    assert_eq!(v(cfg.block_config(&u).f_max), 8000.0);
}

#[test]
fn unusable_release_policies_are_rejected() {
    for cfg in [
        with(|c| c.envelope.fade_level = f(0.0)),
        with(|c| c.envelope.fade_level = f(1.0)),
        with(|c| {
            c.envelope.fade_dur_min_ms = f(20.0);
            c.envelope.fade_dur_max_ms = f(1.0);
        }),
    ] {
        assert!(refusal(&cfg).unwrap().starts_with("[envelope]: "));
    }
}

#[test]
fn grid_applies_the_alpha_beta_cap() {
    let cfg = with(|c| {
        c.dictionary.fof.alphas = singles(&[100.0, 2000.0]);
        c.dictionary.fof.betas_ms = singles(&[1.0, 5.0]);
        c.dictionary.fof.alpha_beta_max = f(4.0);
    });
    // 100*0.001, 100*0.005, 2000*0.001 pass; 2000*0.005 = 10 does not.
    assert_eq!(cfg.dictionary.fof.grid(&units()).len(), 3);
}

#[test]
fn betas_are_milliseconds_in_the_document_and_seconds_in_the_grid() {
    let cfg = with(|c| {
        c.dictionary.fof.alphas = singles(&[100.0]);
        c.dictionary.fof.betas_ms = singles(&[2.5]);
    });
    assert_eq!(cfg.dictionary.fof.grid(&units()), vec![(f(100.0), f(0.0025))]);
}

#[test]
fn validation_catches_unusable_settings() {
    assert!(refusal(&with(|c| c.dictionary.fof.alphas = vec![])).is_some());
    let inverted = with(|c| {
        c.blocks.f_min = f(9000.0);
        c.blocks.f_max = f(100.0);
    });
    assert_eq!(refusal(&inverted).unwrap(), "f_min (9000) must be below f_max (100)");
    // Neither end may be something that is not a number.
    assert!(refusal(&with(|c| c.blocks.f_min = f(f32::NAN))).is_some());
    assert!(refusal(&with(|c| c.blocks.f_max = f(f32::NAN))).is_some());
    for tol in [1.5, 1.0, 0.0, -0.5, f64::NAN] {
        let bad = with(|c| c.blocks.capture_tolerance = d(tol));
        assert_eq!(refusal(&bad).unwrap(), "capture_tolerance must be in (0, 1)");
    }
    let memory = with(|c| c.pursuit.max_memory_mb = 0);
    assert_eq!(refusal(&memory).unwrap(), "pursuit.max_memory_mb must be at least 1");
    let window = with(|c| c.pursuit.window_seconds = f(-2.0));
    assert!(refusal(&window).unwrap().ends_with("a positive number of seconds, got -2"));
    assert_eq!(refusal(&base()), None);
}

#[test]
fn residual_settings_resolve_to_samples_and_seconds() {
    let cfg = with(|c| {
        c.residual.enabled = true;
        c.residual.update_ms = d(1.0);
        c.residual.erb.bands = 32;
        c.residual.erb.max_freq_hz = d(16_000.0);
        c.residual.power.mode = ResidualPowerTimeMode::Fixed;
        c.residual.power.tau_ms = d(4.0);
    });
    assert_eq!(refusal(&cfg), None);
    let at = |sr: f64| cfg.residual_config(&units(), &bank(), d(sr)).unwrap();
    let r = at(48_000.0);
    assert!(r.enabled);
    assert_eq!(r.update_samples, 48);
    assert_eq!(r.erb.bands, 32);
    assert_eq!(w(r.erb.max_freq_hz), 16_000.0);
    assert_eq!(w(r.erb.min_freq_hz), 50.0);
    assert_eq!(r.power.mode, ResidualPowerTimeMode::Fixed);
    assert_eq!(w(r.power.fixed_tau_seconds), 4e-3);
    assert_eq!(w(r.power.tau_max_seconds), 10e-3);
    assert_eq!(at(96_000.0).update_samples, 96);
    assert_eq!(at(44_100.0).update_samples, 44);
}

#[test]
fn residual_is_off_and_silent_by_default() {
    let cfg = base();
    assert!(!cfg.residual.enabled);
    assert!(!cfg.residual_config(&units(), &bank(), d(48_000.0)).unwrap().enabled);
    assert_eq!(refusal(&cfg), None);
}

#[test]
fn residual_settings_are_validated_when_enabled() {
    let bad = |change: fn(&mut Config)| {
        let cfg = with(|c| {
            c.residual.enabled = true;
            change(c);
        });
        refusal(&cfg).is_some() || cfg.residual_config(&units(), &bank(), d(48_000.0)).is_err()
    };
    assert!(bad(|c| c.residual.update_ms = d(0.0)));
    // Under one sample at 48 kHz.
    assert!(bad(|c| c.residual.update_ms = d(0.001)));
    assert!(bad(|c| c.residual.erb.bands = 2));
    assert!(bad(|c| c.residual.erb.order = 0));
    assert!(bad(|c| {
        c.residual.erb.min_freq_hz = d(9000.0);
        c.residual.erb.max_freq_hz = d(100.0);
    }));
    assert!(bad(|c| c.residual.erb.max_freq_hz = d(40_000.0)));
    assert!(bad(|c| c.residual.power.tau_min_ms = d(20.0)));
    assert!(bad(|c| c.residual.power.tau_scale = d(0.0)));
    assert!(!bad(|_| {}));

    // Disabled, the same nonsense is nobody's business: the stage will not run.
    let off = with(|c| c.residual.update_ms = d(0.0));
    assert_eq!(refusal(&off), None);
    let interval = off.residual_config(&units(), &bank(), d(48_000.0)).unwrap_err();
    let want = (d(0.0), d(48_000.0));
    assert!(matches!(
        interval,
        ResidualAnalysisError::InvalidUpdateInterval { update_ms, sample_rate }
            if (update_ms, sample_rate) == want
    ));
}

/// The search and refinement agree about what can be represented.
#[test]
fn refinement_shares_the_bounds_of_the_search() {
    let cfg = with(|c| {
        c.blocks.f_min = f(80.0);
        c.blocks.f_max = f(4000.0);
        c.dictionary.fof.alpha_beta_max = f(2.0);
    });
    let r = cfg.mp_config(&units()).refine;
    assert_eq!((v(r.f_min), v(r.f_max), v(r.alpha_beta_max)), (80.0, 4000.0, 2.0));
    assert_eq!(w(r.rho_sq_max), v(cfg.blocks.rho_sq_max) as f64);
    // Milliseconds in the document, seconds in the search.
    let plain = base().mp_config(&units()).refine;
    assert_eq!((v(plain.beta_min), v(plain.sigma_max)), (0.1 / 1000.0, 0.2));
    assert_eq!(plain.max_atom_samples, RefineConfig::default().max_atom_samples);
}
