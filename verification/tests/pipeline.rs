//! The pipeline's excerpts and figures.

use rmp::ieee::{Double, Single};
use rmp::pipeline::{excerpt, forced_core, Timing};
use rmp::reals::{Elementary, Reals};
use rmp::units::{Converted, Units};

fn d(x: f64) -> Double {
    Double { bits: x.to_bits() }
}

fn f(x: f32) -> Single {
    Single { bits: x.to_bits() }
}

fn v(x: Single) -> f32 {
    f32::from_bits(x.bits)
}

fn w(x: Double) -> f64 {
    f64::from_bits(x.bits)
}

/// The machine's own arithmetic.
fn reals() -> impl Reals + Sync {
    Elementary {
        plus: |a: Double, b: Double| d(w(a) + w(b)),
        minus: |a: Double, b: Double| d(w(a) - w(b)),
        times: |a: Double, b: Double| d(w(a) * w(b)),
        over: |a: Double, b: Double| d(w(a) / w(b)),
        root: |x: Double| d(w(x).sqrt()),
        exp: |x: Double| d(w(x).exp()),
        ln: |x: Double| d(w(x).ln()),
        log10: |x: Double| d(w(x).log10()),
        power: |a: Double, b: Double| d(w(a).powf(w(b))),
        sine: |x: Double| d(w(x).sin()),
        cosine: |x: Double| d(w(x).cos()),
        hypot: |a: Double, b: Double| d(w(a).hypot(w(b))),
        angle: |y: Double, x: Double| d(w(y).atan2(w(x))),
        floor: |x: Double| d(w(x).floor()),
        ceil: |x: Double| d(w(x).ceil()),
        round: |x: Double| d(w(x).round()),
        widen: |x: Single| d(v(x) as f64),
        narrow: |x: Double| f(w(x) as f32),
        count: |n: usize| d(n as f64),
        long: |n: i128| d(n as f64),
        huge: |n: u128| d(n as f64),
        whole: |x: Double| w(x) as usize,
        integer: |x: Double| w(x) as i64,
        byte: |x: Double| w(x) as u8,
        plus_single: |a: Single, b: Single| f(v(a) + v(b)),
        minus_single: |a: Single, b: Single| f(v(a) - v(b)),
        times_single: |a: Single, b: Single| f(v(a) * v(b)),
        over_single: |a: Single, b: Single| f(v(a) / v(b)),
        root_single: |x: Single| f(v(x).sqrt()),
        exp_single: |x: Single| f(v(x).exp()),
        ln_single: |x: Single| f(v(x).ln()),
        floor_single: |x: Single| f(v(x).floor()),
        ceil_single: |x: Single| f(v(x).ceil()),
        round_single: |x: Single| f(v(x).round()),
        count_single: |n: usize| f(n as f32),
        long_single: |n: i128| f(n as f32),
        whole_single: |x: Single| v(x) as usize,
        word_single: |x: Single| v(x) as u32,
        fixed: |x: Double, digits: u8| format!("{:.*}", digits as usize, w(x)),
        signed: |x: Double, digits: u8| format!("{:+.*}", digits as usize, w(x)),
        exponent: |x: Double, digits: u8| format!("{:.*e}", digits as usize, w(x)),
        plain: |x: Double| format!("{}", w(x)),
        plain_single: |x: Single| format!("{}", v(x)),
    }
}

fn units() -> impl Units {
    Converted { reals: reals() }
}

const MS: u64 = 1_000_000;

#[test]
fn the_realtime_factor_counts_the_pursuit_and_not_the_dictionary() {
    let t = Timing { dictionary: 500 * MS, init: 100 * MS, pursuit: 900 * MS, residual: 50 * MS };
    let got = v(t.realtime_factor(&reals(), f(2.0)));
    assert!((got - 0.5).abs() < 1e-6, "got {got}");

    let mut u = t;
    u.dictionary = 60_000 * MS;
    u.residual = 60_000 * MS;
    assert_eq!(u.realtime_factor(&reals(), f(2.0)), t.realtime_factor(&reals(), f(2.0)));
}

#[test]
fn the_realtime_factor_survives_an_empty_excerpt() {
    let t = Timing { pursuit: MS, ..Timing::default() };
    assert!(v(t.realtime_factor(&reals(), f(0.0))).is_finite());
}

#[test]
fn the_pursuit_time_leaves_the_tables_out() {
    let mut t = Timing::default();
    t.pursued(900, 200);
    assert_eq!((t.init, t.pursuit), (200, 700));
    t.pursued(100, 200);
    assert_eq!((t.init, t.pursuit), (200, 0));
}

fn ramp(n: usize) -> Vec<Single> {
    (0..n).map(|i| f(i as f32)).collect()
}

fn cut(start: Option<f32>, duration: Option<f32>) -> Result<(usize, Vec<Single>), String> {
    excerpt(&units(), &ramp(500), f(1000.0), start.map(f), duration.map(f))
}

#[test]
fn no_bounds_returns_the_whole_signal() {
    let (off, got) = cut(None, None).unwrap();
    assert_eq!((off, got.len()), (0, 500));
}

#[test]
fn start_and_duration_cut_a_window() {
    let (off, got) = cut(Some(0.1), Some(0.2)).unwrap();
    assert_eq!((off, got.len()), (100, 200));
    assert_eq!(got[0], f(100.0));
}

#[test]
fn duration_is_clamped_to_the_end_of_the_file() {
    let (off, got) = cut(Some(0.4), Some(9.0)).unwrap();
    assert_eq!((off, got.len()), (400, 100));
}

#[test]
fn start_alone_runs_to_the_end() {
    let (off, got) = cut(Some(0.25), None).unwrap();
    assert_eq!((off, got.len()), (250, 250));
}

#[test]
fn out_of_range_or_negative_bounds_are_errors() {
    assert!(cut(Some(0.5), None).is_err());
    assert!(cut(Some(-0.1), None).is_err());
    assert!(cut(None, Some(0.0)).is_err());
    assert!(cut(None, Some(1e-4)).is_err());
}

#[test]
fn a_refused_excerpt_says_why() {
    assert_eq!(
        cut(Some(0.5), None).unwrap_err(),
        "--start 0.5 s is at or past the end of the 0.500 s input"
    );
    assert_eq!(
        cut(Some(-0.1), None).unwrap_err(),
        "--start must be a non-negative number of seconds, got -0.1"
    );
    assert_eq!(
        cut(None, Some(0.0)).unwrap_err(),
        "--duration must be a positive number of seconds, got 0"
    );
    assert_eq!(
        cut(None, Some(1e-4)).unwrap_err(),
        "--duration 0.0001 s is under one sample at 1000 Hz"
    );
}

#[test]
fn a_window_length_is_forced_only_when_one_is_given() {
    assert_eq!(forced_core(&units(), f(0.0), f(1000.0)), None);
    assert_eq!(forced_core(&units(), f(2.5), f(1000.0)), Some(2500));
}
