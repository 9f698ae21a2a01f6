//! Atoms and shapes.

use rmp::atom::{AtomKind, AtomParams, Envelope, EnvelopeParams, GaussianParams, Shape};
use rmp::dict::FofError;
use rmp::ieee::{Double, Single};
use rmp::notation::{Notation, Written};
use rmp::reals::{Elementary, Reals};

const SR: f32 = 48_000.0;

fn d(x: f64) -> Double {
    Double { bits: x.to_bits() }
}

fn f(x: f32) -> Single {
    Single { bits: x.to_bits() }
}

fn v(x: Single) -> f32 {
    f32::from_bits(x.bits)
}

fn w(x: Double) -> f64 {
    f64::from_bits(x.bits)
}

/// The machine's own arithmetic.
fn reals() -> impl Reals + Sync {
    Elementary {
        plus: |a: Double, b: Double| d(w(a) + w(b)),
        minus: |a: Double, b: Double| d(w(a) - w(b)),
        times: |a: Double, b: Double| d(w(a) * w(b)),
        over: |a: Double, b: Double| d(w(a) / w(b)),
        root: |x: Double| d(w(x).sqrt()),
        exp: |x: Double| d(w(x).exp()),
        ln: |x: Double| d(w(x).ln()),
        log10: |x: Double| d(w(x).log10()),
        power: |a: Double, b: Double| d(w(a).powf(w(b))),
        sine: |x: Double| d(w(x).sin()),
        cosine: |x: Double| d(w(x).cos()),
        hypot: |a: Double, b: Double| d(w(a).hypot(w(b))),
        angle: |y: Double, x: Double| d(w(y).atan2(w(x))),
        floor: |x: Double| d(w(x).floor()),
        ceil: |x: Double| d(w(x).ceil()),
        round: |x: Double| d(w(x).round()),
        widen: |x: Single| d(v(x) as f64),
        narrow: |x: Double| f(w(x) as f32),
        count: |n: usize| d(n as f64),
        long: |n: i128| d(n as f64),
        huge: |n: u128| d(n as f64),
        whole: |x: Double| w(x) as usize,
        integer: |x: Double| w(x) as i64,
        byte: |x: Double| w(x) as u8,
        plus_single: |a: Single, b: Single| f(v(a) + v(b)),
        minus_single: |a: Single, b: Single| f(v(a) - v(b)),
        times_single: |a: Single, b: Single| f(v(a) * v(b)),
        over_single: |a: Single, b: Single| f(v(a) / v(b)),
        root_single: |x: Single| f(v(x).sqrt()),
        exp_single: |x: Single| f(v(x).exp()),
        ln_single: |x: Single| f(v(x).ln()),
        floor_single: |x: Single| f(v(x).floor()),
        ceil_single: |x: Single| f(v(x).ceil()),
        round_single: |x: Single| f(v(x).round()),
        count_single: |n: usize| f(n as f32),
        long_single: |n: i128| f(n as f32),
        whole_single: |x: Single| v(x) as usize,
        word_single: |x: Single| v(x) as u32,
        fixed: |x: Double, digits: u8| format!("{:.*}", digits as usize, w(x)),
        signed: |x: Double, digits: u8| format!("{:+.*}", digits as usize, w(x)),
        exponent: |x: Double, digits: u8| format!("{:.*e}", digits as usize, w(x)),
        plain: |x: Double| format!("{}", w(x)),
        plain_single: |x: Single| format!("{}", v(x)),
    }
}

fn notation() -> impl Notation {
    Written { reals: reals() }
}

fn fof(alpha: f32, beta: f32) -> Shape {
    Shape::Fof(EnvelopeParams {
        alpha: f(alpha),
        beta: f(beta),
        fade_level: f(1e-3),
        fade_dur: f(0.002),
    })
}

/// No synthesizer is asked for here.
fn no_fof(_: EnvelopeParams, _: Single) -> Result<Vec<Single>, FofError> {
    Err(FofError::SilentGrain)
}

fn envelope(shape: Shape) -> Envelope {
    Envelope::render(&reals(), shape, f(SR), no_fof).unwrap()
}

#[test]
fn a_gaussian_atom_is_its_envelope_times_the_carrier() {
    let g = GaussianParams::new(f(0.003));
    let atom = AtomParams { t0: 0, f: f(912.5), env: Shape::Gaussian(g), phi: f(-0.7), amp: f(0.4) };
    let env = envelope(atom.env);
    let mut got = vec![f(9.0); env.support_len() + 3];
    atom.render_into(&reals(), f(SR), |_: AtomParams, _: usize| vec![], &mut got);
    let omega = std::f64::consts::TAU * 912.5 / SR as f64;
    for (n, &y) in got.iter().enumerate() {
        let e = env.samples.get(n).map_or(0.0, |&e| v(e) as f64);
        let want = 0.4 * e * (-0.7 + omega * n as f64).sin();
        assert!((v(y) as f64 - want).abs() < 1e-6, "n={n}: {} vs {want}", v(y));
    }
    assert!(atom.to_fof_params(0).is_none(), "a FOF synthesizer cannot render a gaussian");
}

/// A FOF atom is whatever its synthesizer plays.
#[test]
fn a_fof_atom_is_rendered_by_its_synthesizer() {
    let atom = AtomParams { t0: 0, f: f(440.0), env: fof(251.0, 0.002), phi: f(0.5), amp: f(0.25) };
    let mut got = vec![f(9.0); 3];
    let played = |a: AtomParams, n: usize| vec![a.amp; n];
    atom.render_into(&reals(), f(SR), played, &mut got);
    assert_eq!(got, vec![f(0.25); 3]);
    let drawn = |_: EnvelopeParams, _: Single| Ok::<_, FofError>(vec![f(1.0), f(0.5), f(0.25)]);
    let env = Envelope::render(&reals(), atom.env, f(SR), drawn).unwrap();
    assert_eq!((env.support_len(), w(env.energy)), (3, 1.3125));
    assert!(Envelope::render(&reals(), atom.env, f(SR), no_fof).is_err());
}

#[test]
fn a_fof_atom_still_converts_to_rfofs_parameters() {
    let atom =
        AtomParams { t0: 120, f: f(440.0), env: fof(251.0, 0.002), phi: f(0.5), amp: f(0.25) };
    let p = atom.to_fof_params(1000).unwrap();
    assert_eq!(p.start_sample, 1120);
    assert_eq!((v(p.alpha), v(p.beta), v(p.amp)), (251.0, 0.002, 0.25));
}

#[test]
fn the_approximate_support_is_exact_for_a_gaussian() {
    let g = Shape::Gaussian(GaussianParams::new(f(0.0071)));
    let rendered = envelope(g).support_len();
    assert_eq!(g.approx_support_len(&reals(), f(SR)), rendered);
    assert_eq!(rendered, 2 * (0.0071f32 as f64 * 48_000.0 * (2.0 * (1.0f64 / 0.001f32 as f64).ln()).sqrt()).floor() as usize + 1);
    // A FOF's is the decay's or the attack's, whichever is longer.
    assert_eq!(fof(100.0, 0.002).approx_support_len(&reals(), f(SR)), 3316);
    assert_eq!(fof(100.0, 0.2).approx_support_len(&reals(), f(SR)), 9600);
}

#[test]
fn a_shape_has_a_bandwidth() {
    let width = |s: Shape| v(s.bandwidth_hz(&reals()));
    assert!((width(fof(314.159_27, 0.002)) - 100.0).abs() < 1e-4);
    assert!((width(Shape::Gaussian(GaussianParams::new(f(0.005)))) - 53.0).abs() < 0.01);
}

#[test]
fn kinds_are_named_and_told_apart() {
    assert_eq!(AtomKind::all().map(|k| k.name()), ["fof", "gaussian"]);
    let (a, g) = (fof(251.0, 0.002), Shape::Gaussian(GaussianParams::new(f(0.003))));
    assert_eq!((a.kind(), g.kind()), (AtomKind::Fof, AtomKind::Gaussian));
    assert!(a.as_gaussian().is_none() && g.as_fof().is_none());
    assert_ne!(a.cache_key(), g.cache_key());
    assert_eq!(a.cache_key(), (0, 251.0f32.to_bits(), 0.002f32.to_bits()));
}

#[test]
fn shapes_describe_themselves() {
    let n = notation();
    assert_eq!(fof(251.0, 0.002).describe(&n), "fof alpha 251.000 beta 2.00 ms");
    let g = Shape::Gaussian(GaussianParams::new(f(0.0123)));
    assert_eq!(g.describe(&n), "gaussian sigma 12.30 ms");
}
