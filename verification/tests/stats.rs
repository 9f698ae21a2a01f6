//! A book's statistics.

use rmp::atom::{AtomParams, Envelope, EnvelopeParams, GaussianParams, Shape};
use rmp::book::Book;
use rmp::calc::{Calc, Figures};
use rmp::dict::{Block, Dictionary, FofError, voice_grid};
use rmp::ieee::{Double, Single};
use rmp::pursuit::Selection;
use rmp::reals::{Elementary, Reals};
use rmp::stats::{diagnose, histogram, summarize, Evaluator, Quantity, Summary, Weight};

fn d(x: f64) -> Double {
    Double { bits: x.to_bits() }
}

fn f(x: f32) -> Single {
    Single { bits: x.to_bits() }
}

fn v(x: Single) -> f32 {
    f32::from_bits(x.bits)
}

fn w(x: Double) -> f64 {
    f64::from_bits(x.bits)
}

/// The machine's own arithmetic.
fn reals() -> impl Reals + Sync {
    Elementary {
        plus: |a: Double, b: Double| d(w(a) + w(b)),
        minus: |a: Double, b: Double| d(w(a) - w(b)),
        times: |a: Double, b: Double| d(w(a) * w(b)),
        over: |a: Double, b: Double| d(w(a) / w(b)),
        root: |x: Double| d(w(x).sqrt()),
        exp: |x: Double| d(w(x).exp()),
        ln: |x: Double| d(w(x).ln()),
        log10: |x: Double| d(w(x).log10()),
        power: |a: Double, b: Double| d(w(a).powf(w(b))),
        sine: |x: Double| d(w(x).sin()),
        cosine: |x: Double| d(w(x).cos()),
        hypot: |a: Double, b: Double| d(w(a).hypot(w(b))),
        angle: |y: Double, x: Double| d(w(y).atan2(w(x))),
        floor: |x: Double| d(w(x).floor()),
        ceil: |x: Double| d(w(x).ceil()),
        round: |x: Double| d(w(x).round()),
        widen: |x: Single| d(v(x) as f64),
        narrow: |x: Double| f(w(x) as f32),
        count: |n: usize| d(n as f64),
        long: |n: i128| d(n as f64),
        huge: |n: u128| d(n as f64),
        whole: |x: Double| w(x) as usize,
        integer: |x: Double| w(x) as i64,
        byte: |x: Double| w(x) as u8,
        plus_single: |a: Single, b: Single| f(v(a) + v(b)),
        minus_single: |a: Single, b: Single| f(v(a) - v(b)),
        times_single: |a: Single, b: Single| f(v(a) * v(b)),
        over_single: |a: Single, b: Single| f(v(a) / v(b)),
        root_single: |x: Single| f(v(x).sqrt()),
        exp_single: |x: Single| f(v(x).exp()),
        ln_single: |x: Single| f(v(x).ln()),
        floor_single: |x: Single| f(v(x).floor()),
        ceil_single: |x: Single| f(v(x).ceil()),
        round_single: |x: Single| f(v(x).round()),
        count_single: |n: usize| f(n as f32),
        long_single: |n: i128| f(n as f32),
        whole_single: |x: Single| v(x) as usize,
        word_single: |x: Single| v(x) as u32,
        fixed: |x: Double, digits: u8| format!("{:.*}", digits as usize, w(x)),
        signed: |x: Double, digits: u8| format!("{:+.*}", digits as usize, w(x)),
        exponent: |x: Double, digits: u8| format!("{:.*e}", digits as usize, w(x)),
        plain: |x: Double| format!("{}", w(x)),
        plain_single: |x: Single| format!("{}", v(x)),
    }
}

fn half_len(g: GaussianParams, sr: Single) -> usize {
    g.half_len(&reals(), sr)
}

fn approx(shape: Shape, sr: Single) -> usize {
    shape.approx_support_len(&reals(), sr)
}

fn snr(initial: Double, residual: Double) -> Single {
    f((10.0 * (w(initial) / w(residual)).log10()) as f32)
}

/// The arithmetic at a sample rate of 48 kHz. A FOF's support is the formula's.
fn calc() -> impl Calc {
    let sr = f(48_000.0);
    Figures {
        reals: reals(),
        sample_rate: sr,
        render_len: move |s: Shape| Ok::<usize, FofError>(approx(s, sr)),
        decibels: |x: Single| d(20.0 * (v(x) as f64).abs().log10()),
        snr,
    }
}

fn fof(alpha: f32, beta: f32) -> Shape {
    Shape::Fof(EnvelopeParams {
        alpha: f(alpha),
        beta: f(beta),
        fade_level: f(0.001),
        fade_dur: f(0.01),
    })
}

fn sel(alpha: f32, beta: f32, freq: f32, amp: f32, energy: f64) -> Selection {
    Selection {
        atom: AtomParams { t0: 0, f: f(freq), env: fof(alpha, beta), phi: f(0.0), amp: f(amp) },
        block: 0,
        onset: 0,
        bin: 1,
        projected_energy: d(energy),
        energy_removed: d(energy),
        residual_energy: d(1.0),
        hr_score: None,
        refined: false,
    }
}

fn book_of(sels: Vec<Selection>) -> Book {
    let mut b = Book::new(d(100.0), f(48_000.0));
    b.selections = sels;
    b
}

fn evaluator(b: &Book) -> Evaluator {
    Evaluator::new(b.sample_rate, b.initial_energy)
}

fn total(xs: &[Double]) -> f64 {
    xs.iter().map(|&x| w(x)).sum()
}

/// Every quantity is listed, and once.
#[test]
fn every_quantity_is_in_all() {
    fn tag(q: Quantity) -> u8 {
        match q {
            Quantity::Alpha => 0,
            Quantity::Bandwidth => 1,
            Quantity::Sigma => 2,
            Quantity::Beta => 3,
            Quantity::AlphaBeta => 4,
            Quantity::Freq => 5,
            Quantity::AmpDb => 6,
            Quantity::EnergyDb => 7,
            Quantity::T0 => 8,
            Quantity::SupportMs => 9,
            Quantity::FadeDurMs => 10,
            Quantity::Q => 11,
            Quantity::Rho => 12,
            Quantity::Periods => 13,
            Quantity::Block => 14,
        }
    }
    let mut tags: Vec<u8> = Quantity::all().iter().map(|&q| tag(q)).collect();
    tags.sort_unstable();
    let n = tags.len();
    tags.dedup();
    assert_eq!(tags.len(), n, "a quantity appears twice");
    assert_eq!(tags, (0..15).collect::<Vec<u8>>(), "a quantity is missing");
}

#[test]
fn every_quantity_has_a_label() {
    for q in Quantity::all() {
        assert!(!q.label().is_empty(), "{q:?} has no label");
    }
}

#[test]
fn summary_order_statistics() {
    let xs: Vec<Double> = [5.0, 1.0, 3.0, 2.0, 4.0].iter().map(|&x| d(x)).collect();
    let s = Summary::of(&calc(), &xs);
    assert_eq!((s.n, w(s.min), w(s.max), w(s.median)), (5, 1.0, 5.0, 3.0));
    assert!((w(s.mean) - 3.0).abs() < 1e-12);
    assert_eq!(Summary::of(&calc(), &[]).n, 0);
}

/// Percentiles are the nearest rank, so every one is a value that occurs.
#[test]
fn percentiles_are_values_that_occur() {
    let xs: Vec<Double> = (1..=140).rev().map(|x| d(x as f64)).collect();
    let s = Summary::of(&calc(), &xs);
    assert_eq!(
        (w(s.p5), w(s.p25), w(s.median), w(s.p75), w(s.p95)),
        (7.0, 35.0, 70.0, 105.0, 133.0)
    );
}

/// A NaN sorts after every number and negative zero before positive zero.
#[test]
fn a_sample_is_sorted_in_the_total_order() {
    let xs = [d(f64::NAN), d(0.0), d(-0.0), d(-1.0)];
    let s = Summary::of(&calc(), &xs);
    assert_eq!(w(s.min), -1.0);
    assert_eq!(s.p25, d(-1.0));
    assert_eq!(s.median, d(-0.0));
    assert_eq!(s.p75, d(0.0));
    assert!(w(s.max).is_nan());
}

#[test]
fn histogram_conserves_mass_under_both_weights() {
    let b = book_of(vec![
        sel(100.0, 0.001, 400.0, 1.0, 4.0),
        sel(200.0, 0.001, 800.0, 1.0, 3.0),
        sel(400.0, 0.001, 1600.0, 1.0, 2.0),
        sel(800.0, 0.001, 3200.0, 1.0, 1.0),
    ]);
    for (wt, expect) in [(Weight::Count, 4.0), (Weight::Energy, 10.0)] {
        for range in [None, Some((d(150.0), d(500.0)))] {
            let mut ev = evaluator(&b);
            let h = histogram(&calc(), &b.selections, &mut ev, Quantity::Alpha, 8, None, range, wt)
                .unwrap();
            let inside = total(&h.counts);
            assert!(
                (inside + w(h.below) + w(h.above) + w(h.skipped) - expect).abs() < 1e-12,
                "{wt:?} {range:?}"
            );
            assert!((w(h.total) - expect).abs() < 1e-12);
        }
    }
}

#[test]
fn log_bins_are_geometric_and_spread_a_geometric_sample() {
    let b = book_of(vec![
        sel(100.0, 0.001, 400.0, 1.0, 1.0),
        sel(200.0, 0.001, 400.0, 1.0, 1.0),
        sel(400.0, 0.001, 400.0, 1.0, 1.0),
        sel(800.0, 0.001, 400.0, 1.0, 1.0),
    ]);
    let mut ev = evaluator(&b);
    let q = Quantity::Alpha;
    let h = histogram(&calc(), &b.selections, &mut ev, q, 4, Some(true), None, Weight::Count)
        .unwrap();
    assert!(h.log);
    for i in 0..h.edges.len() - 2 {
        let r0 = w(h.edges[i + 1]) / w(h.edges[i]);
        let r1 = w(h.edges[i + 2]) / w(h.edges[i + 1]);
        assert!((r0 - r1).abs() < 1e-9, "edges not geometric: {r0} vs {r1}");
    }
    assert_eq!(h.counts, vec![d(1.0), d(1.0), d(1.0), d(1.0)]);

    let mut ev = evaluator(&b);
    let lin = histogram(&calc(), &b.selections, &mut ev, q, 4, Some(false), None, Weight::Count)
        .unwrap();
    assert_eq!(lin.counts[0], d(2.0));
}

#[test]
fn log_histogram_skips_non_positive_values() {
    let mut b = book_of(vec![
        sel(100.0, 0.001, 400.0, 1.0, 1.0),
        sel(100.0, 0.001, 0.0, 1.0, 1.0),
    ]);
    b.selections[1].atom.f = f(0.0);
    let mut ev = evaluator(&b);
    let h = histogram(&calc(), &b.selections, &mut ev, Quantity::Q, 4, None, None, Weight::Count)
        .unwrap();
    assert_eq!(h.skipped, d(1.0));
    assert_eq!(total(&h.counts), 1.0);
}

#[test]
fn quantities_parse_and_derive() {
    assert_eq!(Quantity::from_str("alpha_beta").unwrap(), Quantity::AlphaBeta);
    assert_eq!(Quantity::from_str("BW").unwrap(), Quantity::Bandwidth);
    assert!(Quantity::from_str("nonsense").is_err());

    let b = book_of(vec![sel(314.159_27, 0.002, 1000.0, 0.5, 1.0)]);
    let mut ev = evaluator(&b);
    let s = &b.selections[0];
    let mut at = |q| ev.eval(&calc(), s, q).unwrap().map(w);
    assert!((at(Quantity::Bandwidth).unwrap() - 100.0).abs() < 1e-3);
    assert!((at(Quantity::Beta).unwrap() - 2.0).abs() < 1e-6);
    assert!((at(Quantity::AlphaBeta).unwrap() - 0.628_318_5).abs() < 1e-6);
    assert!((at(Quantity::Q).unwrap() - 10.0).abs() < 1e-4);
    assert!((at(Quantity::AmpDb).unwrap() + 6.0206).abs() < 1e-3);
    assert_eq!(at(Quantity::Sigma), None, "a FOF has no sigma");
}

/// A capital outside ASCII is lowered by Unicode's own mapping, and is no quantity.
#[test]
fn a_foreign_capital_is_not_a_quantity() {
    assert_eq!(Quantity::from_str("ALPHA").unwrap(), Quantity::Alpha);
    assert_eq!(
        Quantity::from_str("ÀLPHA").unwrap_err(),
        "unknown quantity 'ÀLPHA'"
    );
}

#[test]
fn a_gaussian_has_its_own_quantities_and_the_rest_are_inapplicable() {
    let mut g = sel(100.0, 0.001, 1000.0, 1.0, 5.0);
    g.atom.env = Shape::Gaussian(GaussianParams::new(f(0.005)));
    let b = book_of(vec![sel(100.0, 0.001, 400.0, 1.0, 1.0), g]);
    let mut ev = evaluator(&b);
    let s = &b.selections[1];
    for q in [
        Quantity::Alpha,
        Quantity::Beta,
        Quantity::AlphaBeta,
        Quantity::FadeDurMs,
        Quantity::Rho,
    ] {
        assert_eq!(ev.eval(&calc(), s, q).unwrap(), None, "{q:?}");
    }
    let mut at = |q| w(ev.eval(&calc(), s, q).unwrap().unwrap());
    assert!((at(Quantity::Sigma) - 5.0).abs() < 1e-4);
    let bw = at(Quantity::Bandwidth);
    assert!((bw - 0.2650 / 0.005).abs() < 0.1, "bandwidth {bw}");
    assert!((at(Quantity::Q) - 1000.0 / bw).abs() < 1e-3);
    let support = (2 * half_len(GaussianParams::new(f(0.005)), f(48_000.0)) + 1) as f64;
    assert_eq!(at(Quantity::SupportMs), support * 1e3 / 48_000.0);

    for wt in [Weight::Count, Weight::Energy] {
        let h = histogram(&calc(), &b.selections, &mut ev, Quantity::Alpha, 4, None, None, wt)
            .unwrap();
        let inside = total(&h.counts);
        let (want_total, want_other) = if wt == Weight::Count { (1.0, 1.0) } else { (1.0, 5.0) };
        assert_eq!(
            (inside, w(h.total), w(h.inapplicable)),
            (want_total, want_total, want_other)
        );
    }
}

#[test]
fn summary_reuses_the_books_own_convergence_figures() {
    let mut b = book_of(vec![
        sel(100.0, 0.001, 400.0, 1.0, 90.0),
        sel(200.0, 0.001, 400.0, 1.0, 9.0),
    ]);
    b.selections[0].residual_energy = d(10.0);
    b.selections[1].residual_energy = d(1.0);
    b.selections[1].refined = true;
    b.selections[1].hr_score = Some(d(4.5));

    let mut ev = evaluator(&b);
    let s = summarize(&calc(), &b, &mut ev).unwrap();
    assert_eq!(s.atoms, 2);
    assert!((v(s.snr_db) - v(b.snr_db(&calc()))).abs() < 1e-6);
    assert_eq!(s.atoms_to_reach[0], (f(10.0), Some(1)));
    assert_eq!(s.atoms_to_reach[3], (f(40.0), None));
    assert!((w(s.refined_frac) - 0.5).abs() < 1e-12);
    assert_eq!(s.hrmp_atoms, 1);
    assert!((w(s.hr_consistency) - 0.5).abs() < 1e-12);
    assert_eq!(s.shortfall_atoms, 0);
    assert!((w(s.removed_over_projected.median) - 1.0).abs() < 1e-12);
    assert!((w(s.deposited_frac) - 1.0).abs() < 1e-12);
}

/// A book's span runs from its earliest onset to the last sample any atom reaches.
#[test]
fn the_span_covers_every_atom() {
    let mut b = book_of(vec![
        sel(100.0, 0.001, 400.0, 1.0, 1.0),
        sel(1000.0, 0.001, 400.0, 1.0, 1.0),
    ]);
    b.selections[0].atom.t0 = -50;
    b.selections[1].atom.t0 = 9_000;
    let s = summarize(&calc(), &b, &mut evaluator(&b)).unwrap();
    let end = 9_000 + approx(b.selections[1].atom.env, f(48_000.0)) as i64;
    assert_eq!(s.span, (-50, end));
}

/// A block that carries only what the diagnostics read.
fn block(shape: Shape) -> Block {
    Block {
        env: Envelope {
            params: shape,
            sample_rate: f(48_000.0),
            samples: vec![f(1.0); 64],
            energy: d(64.0),
        },
        fft_len: 128,
        hop: 8,
        k_lo: 2,
        k_hi: 4,
        inv_uu: vec![f(1.0); 3],
        inv_uv: vec![f(0.0); 3],
        inv_vv: vec![f(1.0); 3],
        rho: vec![f(0.1), f(0.2), f(0.3)],
    }
}

fn voice() -> Dictionary {
    let blocks = voice_grid()
        .into_iter()
        .filter(|&(a, b)| v(a) * v(b) <= 4.0)
        .map(|(a, b)| block(fof(v(a), v(b))))
        .collect();
    Dictionary { blocks, sample_rate: f(48_000.0) }
}

#[test]
fn diagnose_reports_drift_and_edge_pileup() {
    let dict = voice();
    assert_eq!(dict.blocks.len(), 22);
    let mut b = book_of(vec![
        sel(80.0, 0.000_3, 400.0, 1.0, 1.0),
        sel(128.0, 0.000_3, 400.0, 1.0, 1.0),
    ]);
    b.selections[1].refined = true;
    let live = dict.blocks[0].live_bins()[0];
    for s in &mut b.selections {
        s.bin = live;
    }

    let r = diagnose(&calc(), &b, &dict, f(0.9999));
    assert_eq!(r.blocks.len(), dict.blocks.len());
    assert_eq!(r.blocks[0].count, 2);
    assert!(r.edge_pileup.is_some(), "expected an edge-pile-up warning");
    let most = w(r.d_ln_alpha.max);
    assert!((most - 1.6f64.ln()).abs() < 1e-3, "one rung is ln 1.6: {most}");
    assert_eq!(w(r.d_ln_alpha.min), 0.0);
    assert_eq!(r.off_grid_seeds, 0);
}

#[test]
fn a_pileup_is_told_in_percent() {
    let dict = voice();
    let mut b = book_of(vec![sel(80.0, 0.000_3, 400.0, 1.0, 1.0); 3]);
    b.selections[2].block = 5;
    for s in &mut b.selections {
        s.bin = 3;
    }
    let r = diagnose(&calc(), &b, &dict, f(0.9999));
    assert_eq!(
        r.edge_pileup.as_deref(),
        Some("67% of fof seeds are on the first or last alpha rung — the ladder may not reach far enough")
    );
    assert_eq!(w(r.blocks[0].energy_share), 2.0 / 3.0);
}

/// A rung is one alpha, whatever the beta.
#[test]
fn a_pileup_counts_every_block_of_an_edge_rung() {
    let dict = voice();
    let alpha = |b: usize| match dict.blocks[b].env.params {
        Shape::Fof(p) => v(p.alpha),
        Shape::Gaussian(_) => panic!("the voice grid is all grains"),
    };
    assert_eq!(alpha(0), alpha(1));
    let last = dict.blocks.len() - 1;
    let told = |block: usize| {
        let mut b = book_of(vec![sel(80.0, 0.000_3, 400.0, 1.0, 1.0); 3]);
        for s in &mut b.selections {
            s.block = block;
            s.bin = 3;
        }
        diagnose(&calc(), &b, &dict, f(0.9999)).edge_pileup
    };
    for block in 0..=last {
        let edge = alpha(block) == alpha(0) || alpha(block) == alpha(last);
        assert_eq!(told(block).is_some(), edge, "block {block}");
    }
    assert!(told(1).unwrap().starts_with("100% of fof seeds are on the first or last alpha rung"));
}

/// A family of one rung has all its seeds on it, once.
#[test]
fn a_family_of_one_block_is_counted_once() {
    let lone = Shape::Gaussian(GaussianParams::new(f(0.005)));
    let dict = Dictionary { blocks: vec![block(lone)], sample_rate: f(48_000.0) };
    let mut b = book_of(vec![sel(80.0, 0.000_3, 400.0, 1.0, 1.0); 2]);
    for s in &mut b.selections {
        s.atom.env = lone;
        s.bin = 3;
    }
    let told = diagnose(&calc(), &b, &dict, f(0.9999)).edge_pileup.unwrap();
    assert!(told.starts_with("100% of gaussian seeds are on the first or last sigma rung"), "{told}");
}

#[test]
fn seeds_off_the_grid_are_counted() {
    let dict = voice();
    let mut b = book_of(vec![sel(80.0, 0.000_3, 400.0, 1.0, 1.0); 4]);
    b.selections[0].block = 99;
    b.selections[1].bin = 77;
    b.selections[2].atom.env = Shape::Gaussian(GaussianParams::new(f(0.005)));
    b.selections[3].bin = 4;
    let r = diagnose(&calc(), &b, &dict, f(0.05));
    assert_eq!(r.off_grid_seeds, 3);
    assert_eq!(r.ill_conditioned, 1);
}
