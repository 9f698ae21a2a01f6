//! Reports on a finished book: headline figures, diagnostics, convergence and the map's accounts.

use crate::atom::{AtomKind, Shape};
use crate::book::Book;
use crate::calc::Calc;
use crate::dict::FofError;
use crate::display::{
    append_page, histogram_lines, histogram_text, num, percent_of, share, share_text, short,
        statistics, statistics_line, summary_line,
    summary_text, HUNDRED, THOUSAND,
};
use crate::ieee::{Double, Single};
use crate::notation::Notation;
use crate::pursuit::Selection;
use crate::report::{
    kind_texts, kinds_in, kinds_selected, kinds_text, tau_ends, tau_range, TINY,
};
use crate::residual::book::ResidualBook;
use crate::stats::{
    evaluated_through, histogram, is_histogram, is_summary, summarize, summary, supports_through,
    targets, weights, BlockUse, BookSummary, Diagnostics, Evaluator, Histogram, Known, Quantity,
    Summary, Weight,
};
use crate::table::{join, joined, laid_out, padded, push_padded, texts, Contents, Page, Table};
use crate::text::{push_number, written};
use crate::mapmath::MapMath;
use crate::tfmap::{column_through, row_through, TfMap};
use vstd::prelude::*;

verus! {

/// The bits of nine tenths: with nothing to clamp them, few atoms remove less of their projection.
pub const SUSPECT: u64 = 0x3fec_cccc_cccc_cccd;

/// The bits of a twentieth: two records of one energy that differ by more do not agree.
pub const DISAGREEMENT: u64 = 0x3fa9_9999_9999_999a;

/// The bits of a millionth.
pub const MILLIONTH: u64 = 0x3eb0_c6f7_a0b5_ed8d;

/// The bits of a thousand, single.
pub const THOUSAND_SINGLE: u32 = 0x447a_0000;

// ---------------------------------------------------------------------------------------------
// the summary
// ---------------------------------------------------------------------------------------------

/// What the book holds.
pub open spec fn book_lines<N: Notation>(n: &N, s: BookSummary) -> Seq<Seq<char>> {
    seq![
        "book"@,
        "  atoms               "@ + written(s.atoms as int),
        "  sample rate         "@ + n.fixed_of(n.widen_of(s.sample_rate), 0) + " Hz"@,
        "  span                "@ + n.fixed_of(n.over_of(n.position_of(s.span.0 as i128),
            n.widen_of(s.sample_rate)), 3) + " .. "@
            + n.fixed_of(n.over_of(n.position_of(s.span.1 as i128), n.widen_of(s.sample_rate)), 3)
            + " s  ("@
            + n.fixed_of(n.over_of(n.position_of((s.span.1 as i128 - s.span.0 as i128) as i128),
            n.widen_of(s.sample_rate)), 3) + " s)"@,
    ]
}

/// Appends [`book_lines`].
fn book<N: Notation>(n: &N, s: &BookSummary, page: &mut Page)
    requires
        n.repeatable(),
    ensures
        final(page)@ == old(page)@ + book_lines(n, *s),
{
    let ghost before = page@;
    page.push("book".to_owned());
    let mut line = "  atoms               ".to_owned();
    push_number(&mut line, s.atoms as u64);
    page.push(line);
    let mut line = "  sample rate         ".to_owned();
    line.append(n.fixed(n.widen(s.sample_rate), 0).as_str());
    line.append(" Hz");
    page.push(line);
    let mut line = "  span                ".to_owned();
    line.append(n.fixed(n.over(n.position(s.span.0 as i128), n.widen(s.sample_rate)), 3).as_str());
    line.append(" .. ");
    line.append(n.fixed(n.over(n.position(s.span.1 as i128), n.widen(s.sample_rate)), 3).as_str());
    line.append(" s  (");
    line.append(n.fixed(n.over(n.position((s.span.1 as i128 - s.span.0 as i128) as i128),
        n.widen(s.sample_rate)), 3).as_str());
    line.append(" s)");
    page.push(line);
    assert(page@ =~= before + book_lines(n, *s));
}

/// When a target was reached, if it was.
pub open spec fn reached<N: Notation>(n: &N, target: Single, at: Option<usize>) -> Seq<char> {
    let level = padded(n.fixed_of(n.widen_of(target), 0), 4, false);
    match at {
        Some(k) => "  "@ + level + " dB reached at  "@ + written(k as int) + " atoms"@,
        None => "  "@ + level + " dB              not reached"@,
    }
}

/// How the pursuit converged.
pub open spec fn convergence_lines<N: Notation>(n: &N, s: BookSummary) -> Seq<Seq<char>> {
    seq![
        ""@,
        "convergence"@,
        "  final SNR           "@ + n.fixed_of(n.widen_of(s.snr_db), 1) + " dB"@,
    ] + Seq::new(
        s.atoms_to_reach@.len(),
        |i: int| reached(n, s.atoms_to_reach@[i].0, s.atoms_to_reach@[i].1),
    )
}

fn convergence<N: Notation>(n: &N, s: &BookSummary, page: &mut Page)
    requires
        n.repeatable(),
    ensures
        final(page)@ == old(page)@ + convergence_lines(n, *s),
{
    let ghost before = page@;
    page.push("".to_owned());
    page.push("convergence".to_owned());
    let mut line = "  final SNR           ".to_owned();
    line.append(n.fixed(n.widen(s.snr_db), 1).as_str());
    line.append(" dB");
    page.push(line);
    let ghost want = before + convergence_lines(n, *s);
    let ghost top = before.len() + 3;
    assert(page@ =~= want.take(top as int));
    let mut i: usize = 0;
    while i < s.atoms_to_reach.len()
        invariant
            n.repeatable(),
            i <= s.atoms_to_reach@.len(),
            top == before.len() + 3,
            want == before + convergence_lines(n, *s),
            page@ == want.take(top + i),
        decreases s.atoms_to_reach@.len() - i,
    {
        let (target, at) = s.atoms_to_reach[i];
        let mut line = "  ".to_owned();
        push_padded(&mut line, n.fixed(n.widen(target), 0).as_str(), 4, false);
        match at {
            Some(k) => {
                line.append(" dB reached at  ");
                push_number(&mut line, k as u64);
                line.append(" atoms");
            },
            None => {
                line.append(" dB              not reached");
            },
        }
        assert(line@ == reached(n, target, at));
        page.push(line);
        assert(want[top + i] == reached(n, target, at));
        assert(want.take(top + i + 1) =~= want.take(top + i).push(want[top + i]));
        i += 1;
    }
    assert(want.take(want.len() as int) =~= want);
}

/// The energy accounts.
pub open spec fn energy_lines<N: Notation>(n: &N, s: BookSummary) -> Seq<Seq<char>> {
    seq![
        ""@,
        "energy"@,
        "  initial             "@ + n.exponent_of(s.initial_energy, 6),
        "  residual            "@ + n.exponent_of(s.residual_energy, 6),
        "  sum of atoms        "@ + n.fixed_of(n.times_of(Double { bits: HUNDRED },
            s.deposited_frac), 1) + "% of what the pursuit removed"@,
        "  per atom          "@ + statistics_line(n, s.energy_removed),
    ]
}

/// Appends [`energy_lines`].
fn energy<N: Notation>(n: &N, s: &BookSummary, page: &mut Page)
    requires
        n.repeatable(),
    ensures
        final(page)@ == old(page)@ + energy_lines(n, *s),
{
    let ghost before = page@;
    page.push("".to_owned());
    page.push("energy".to_owned());
    let mut line = "  initial             ".to_owned();
    line.append(n.exponent(s.initial_energy, 6).as_str());
    page.push(line);
    let mut line = "  residual            ".to_owned();
    line.append(n.exponent(s.residual_energy, 6).as_str());
    page.push(line);
    let mut line = "  sum of atoms        ".to_owned();
    line.append(n.fixed(n.times(Double { bits: HUNDRED }, s.deposited_frac), 1).as_str());
    line.append("% of what the pursuit removed");
    page.push(line);
    let mut line = "  per atom          ".to_owned();
    line.append(summary_line(n, &s.energy_removed).as_str());
    page.push(line);
    assert(page@ =~= before + energy_lines(n, *s));
}

/// What refinement and validation did.
pub open spec fn pursuit_lines<N: Notation>(n: &N, s: BookSummary) -> Seq<Seq<char>> {
    seq![
        ""@,
        "pursuit"@,
        "  refined             "@ + written(
            n.nearest_of(n.times_of(s.refined_frac, n.count_of(s.atoms))) as int) + "/"@
                + written(s.atoms as int) + " ("@ + n.fixed_of(n.times_of(Double { bits: HUNDRED },
                s.refined_frac), 1) + "%)"@,
        "  removed/projected   median "@ + n.fixed_of(s.removed_over_projected.median, 3) + ", p5 "@
            + n.fixed_of(s.removed_over_projected.p5, 3) + ", min "@
            + n.fixed_of(s.removed_over_projected.min, 3) + ", max "@
            + n.fixed_of(s.removed_over_projected.max, 3),
        "  fell short of it    "@ + written(s.shortfall_atoms as int) + "/"@
            + written(s.atoms as int) + " atoms by more than 1%"@,
    ] + (if s.hrmp_atoms == 0 {
        seq![
            "  HRMP                not run"@,
        ]
    } else {
        seq![
            "  HRMP ran on         "@ + written(s.hrmp_atoms as int) + "/"@
                + written(s.atoms as int) + " atoms — the shortfall above is its amplitude clamp"@,
        ]
    })
}

/// Appends [`pursuit_lines`].
fn pursuit<N: Notation>(n: &N, s: &BookSummary, page: &mut Page)
    requires
        n.repeatable(),
    ensures
        final(page)@ == old(page)@ + pursuit_lines(n, *s),
{
    let ghost before = page@;
    page.push("".to_owned());
    page.push("pursuit".to_owned());
    let mut line = "  refined             ".to_owned();
    push_number(&mut line, n.nearest(n.times(s.refined_frac, n.count(s.atoms))) as u64);
    line.append("/");
    push_number(&mut line, s.atoms as u64);
    line.append(" (");
    line.append(n.fixed(n.times(Double { bits: HUNDRED }, s.refined_frac), 1).as_str());
    line.append("%)");
    page.push(line);
    let mut line = "  removed/projected   median ".to_owned();
    line.append(n.fixed(s.removed_over_projected.median, 3).as_str());
    line.append(", p5 ");
    line.append(n.fixed(s.removed_over_projected.p5, 3).as_str());
    line.append(", min ");
    line.append(n.fixed(s.removed_over_projected.min, 3).as_str());
    line.append(", max ");
    line.append(n.fixed(s.removed_over_projected.max, 3).as_str());
    page.push(line);
    let mut line = "  fell short of it    ".to_owned();
    push_number(&mut line, s.shortfall_atoms as u64);
    line.append("/");
    push_number(&mut line, s.atoms as u64);
    line.append(" atoms by more than 1%");
    page.push(line);
    if s.hrmp_atoms == 0 {
        page.push("  HRMP                not run".to_owned());
    } else {
        let mut line = "  HRMP ran on         ".to_owned();
        push_number(&mut line, s.hrmp_atoms as u64);
        line.append("/");
        push_number(&mut line, s.atoms as u64);
        line.append(" atoms — the shortfall above is its amplitude clamp");
        page.push(line);
    }
    assert(page@ =~= before + pursuit_lines(n, *s));
}

/// What a summary warns of. With no clamp in the path, removed and projected are the same energy
/// computed two ways, so a real shortfall is a parameter-mapping error rather than a setting; with
/// one, the two records of the energy after it should agree.
#[verifier::opaque]
pub open spec fn warning<N: Notation>(n: &N, s: BookSummary) -> Option<Seq<char>> {
    let r = s.removed_over_projected;
    if s.hrmp_atoms == 0 {
        if r.n > 0 && r.p5.less(Double { bits: SUSPECT }) {
            Some(
                "rmpstat: warning: HRMP did not run, yet 5% of atoms removed under "@ + n.fixed_of(
                    n.times_of(Double { bits: HUNDRED }, r.p5),
                    0,
                )
                    + "% of their projection — with no clamp in the path that points at a parameter-mapping error, not a setting"@,
            )
        } else {
            None
        }
    } else if (Double { bits: DISAGREEMENT }).less(s.hr_consistency) {
        Some(
            "rmpstat: warning: hr_score and energy_removed differ by up to "@ + n.fixed_of(
                n.times_of(Double { bits: HUNDRED }, s.hr_consistency),
                1,
            ) + "% — they record the same post-clamp energy and should agree"@,
        )
    } else {
        None
    }
}

/// What a summary warns of.
pub fn summary_warning<N: Notation>(n: &N, s: &BookSummary) -> (r: Option<String>)
    requires
        n.repeatable(),
    ensures
        match r {
            Some(text) => warning(n, *s) == Some(text@),
            None => warning(n, *s) is None,
        },
{
    reveal(warning);
    let p5 = s.removed_over_projected.p5;
    if s.hrmp_atoms == 0 {
        if s.removed_over_projected.n > 0 && p5.lt(Double { bits: SUSPECT }) {
            let mut line = "rmpstat: warning: HRMP did not run, yet 5% of atoms removed under ".to_owned();
            line.append(n.fixed(n.times(Double { bits: HUNDRED }, p5), 0).as_str());
            line.append(
                "% of their projection — with no clamp in the path that points at a parameter-mapping error, not a setting",
            );
            Some(line)
        } else {
            None
        }
    } else if (Double { bits: DISAGREEMENT }).lt(s.hr_consistency) {
        let mut line = "rmpstat: warning: hr_score and energy_removed differ by up to ".to_owned();
        line.append(n.fixed(n.times(Double { bits: HUNDRED }, s.hr_consistency), 1).as_str());
        line.append("% — they record the same post-clamp energy and should agree");
        Some(line)
    } else {
        None
    }
}

/// The stochastic half: only what it is, not what is in it.
pub open spec fn residual_lines<N: Notation>(n: &N, rb: ResidualBook) -> Seq<Seq<char>> {
    seq![
        ""@,
        "residual analysis"@,
        "  bank                "@ + written(rb.band_count as int) + " ERB bands, "@
            + n.fixed_of(rb.bank.min_freq_hz, 0) + " .. "@ + n.fixed_of(rb.bank.max_freq_hz, 0)
            + " Hz, order "@ + written(rb.bank.filter_order as int) + " "@ + "gammatone"@,
        "  frames              "@ + written(rb.frame_count as int) + " every "@
            + written(rb.update_samples as int) + " samples ("@
            + n.fixed_of(n.over_of(n.times_of(n.count_of(rb.update_samples as usize), Double {
            bits: THOUSAND }), rb.sample_rate), 3) + " ms)"@,
        "  power detector      "@ + rb.bank.power_detector.mode.spelling() + ", tau "@
            + n.fixed_of(tau_range(n, rb.bank.power_detector.tau_seconds@).0, 2) + " .. "@
            + n.fixed_of(tau_range(n, rb.bank.power_detector.tau_seconds@).1, 2) + " ms"@,
    ]
}

/// Appends [`residual_lines`].
fn residual<N: Notation>(n: &N, rb: &ResidualBook, page: &mut Page)
    requires
        n.repeatable(),
    ensures
        final(page)@ == old(page)@ + residual_lines(n, *rb),
{
    let ghost before = page@;
    page.push("".to_owned());
    page.push("residual analysis".to_owned());
    let mut line = "  bank                ".to_owned();
    push_number(&mut line, rb.band_count as u64);
    line.append(" ERB bands, ");
    line.append(n.fixed(rb.bank.min_freq_hz, 0).as_str());
    line.append(" .. ");
    line.append(n.fixed(rb.bank.max_freq_hz, 0).as_str());
    line.append(" Hz, order ");
    push_number(&mut line, rb.bank.filter_order as u64);
    line.append(" ");
    line.append(rb.bank.filter_kind.as_str());
    page.push(line);
    let mut line = "  frames              ".to_owned();
    push_number(&mut line, rb.frame_count as u64);
    line.append(" every ");
    push_number(&mut line, rb.update_samples as u64);
    line.append(" samples (");
    line.append(n.fixed(n.over(n.times(n.count(rb.update_samples as usize), Double { bits: THOUSAND
        }), rb.sample_rate), 3).as_str());
    line.append(" ms)");
    page.push(line);
    let mut line = "  power detector      ".to_owned();
    line.append(rb.bank.power_detector.mode.as_str());
    line.append(", tau ");
    line.append(n.fixed(tau_ends(n, rb.bank.power_detector.tau_seconds.as_slice()).0, 2).as_str());
    line.append(" .. ");
    line.append(n.fixed(tau_ends(n, rb.bank.power_detector.tau_seconds.as_slice()).1, 2).as_str());
    line.append(" ms");
    page.push(line);
    assert(page@ =~= before + residual_lines(n, *rb));
}

/// The values among the first `m` that are finite numbers.
pub open spec fn finite_among(xs: Seq<Option<Double>>, m: int) -> Seq<Double>
    decreases m,
{
    if m <= 0 {
        seq![]
    } else {
        match xs[m - 1] {
            Some(x) => if x.finite() {
                finite_among(xs, m - 1).push(x)
            } else {
                finite_among(xs, m - 1)
            },
            None => finite_among(xs, m - 1),
        }
    }
}

/// Whether any atom has the quantity.
pub open spec fn described(xs: Seq<Option<Double>>, m: int) -> bool {
    exists|i: int| 0 <= i < m && (#[trigger] xs[i]) is Some
}

/// One quantity's line, where any atom has it.
pub open spec fn parameter_line<N: Notation, C: Calc>(
    n: &N,
    calc: &C,
    q: Quantity,
    xs: Seq<Option<Double>>,
) -> Seq<Seq<char>> {
    let st = summary(calc, finite_among(xs, xs.len() as int));
    if st.n == 0 && !described(xs, xs.len() as int) {
        seq![]
    } else {
        seq!["  "@ + padded(q.heading(), 22, true) + statistics(n, st)]
    }
}

/// Appends [`parameter_line`].
fn parameter<N: Notation, C: Calc>(
    n: &N,
    calc: &C,
    q: Quantity,
    xs: &Vec<Option<Double>>,
    page: &mut Page,
)
    requires
        n.repeatable(),
        calc.repeatable(),
    ensures
        final(page)@ == old(page)@ + parameter_line(n, calc, q, xs@),
{
    let ghost before = page@;
    let mut values: Vec<Double> = Vec::new();
    let mut any: bool = false;
    let mut i: usize = 0;
    while i < xs.len()
        invariant
            i <= xs@.len(),
            values@ == finite_among(xs@, i as int),
            any == described(xs@, i as int),
        decreases xs@.len() - i,
    {
        if let Some(x) = xs[i] {
            assert(xs@[i as int] is Some);
            any = true;
            if x.is_finite() {
                values.push(x);
            }
        }
        proof {
            if described(xs@, i + 1) && !described(xs@, i as int) {
                assert(xs@[i as int] is Some);
            }
        }
        i += 1;
    }
    let st = Summary::of(calc, values.as_slice());
    if st.n != 0 || any {
        let mut line = "  ".to_owned();
        push_padded(&mut line, q.label(), 22, true);
        line.append(summary_text(n, &st).as_str());
        page.push(line);
    }
    assert(page@ =~= before + parameter_line(n, calc, q, xs@));
}

/// The quantities a summary goes through, the first `m` of them: their lines, and what is known of
/// the supports after; stopped by the first that cannot be evaluated.
pub open spec fn parameters_through<N: Notation, C: Calc>(
    n: &N,
    calc: &C,
    book: Book,
    k: Known,
    m: int,
) -> (Result<Seq<Seq<char>>, FofError>, Known)
    decreases m,
{
    if m <= 0 {
        (Ok(seq![]), k)
    } else {
        match parameters_through(n, calc, book, k, m - 1) {
            (Err(e), k2) => (Err(e), k2),
            (Ok(lines), k2) => {
                let q = listed()[m - 1];
                match evaluated_through(calc, k2, book.selections@, q,
                    book.selections@.len() as int) {
                    (Err(e), k3) => (Err(e), k3),
                    (Ok(xs), k3) => (Ok(lines + parameter_line(n, calc, q, xs)), k3),
                }
            },
        }
    }
}

/// The quantities a summary lists.
pub open spec fn listed() -> Seq<Quantity> {
    seq![
        Quantity::Alpha,
        Quantity::Bandwidth,
        Quantity::Beta,
        Quantity::AlphaBeta,
        Quantity::Sigma,
        Quantity::Freq,
        Quantity::AmpDb,
    ]
}

proof fn lemma_parameters_stopped<N: Notation, C: Calc>(
    n: &N,
    calc: &C,
    book: Book,
    k: Known,
    a: int,
    b: int,
)
    requires
        0 <= a <= b,
        parameters_through(n, calc, book, k, a).0 is Err,
    ensures
        parameters_through(n, calc, book, k, b) == parameters_through(n, calc, book, k, a),
    decreases b,
{
    if a < b {
        lemma_parameters_stopped(n, calc, book, k, a, b - 1);
    }
}

/// Appends the lines of [`parameters_through`] every quantity listed.
fn parameters<N: Notation, C: Calc>(n: &N, calc: &C, book: &Book, ev: &mut Evaluator,
    page: &mut Page) -> (r:
    Result<(), FofError>)
    requires
        n.repeatable(),
        calc.repeatable(),
    ensures
        final(ev)@ == parameters_through(n, calc, *book, old(ev)@, 7).1,
        match (parameters_through(n, calc, *book, old(ev)@, 7).0, r) {
            (Ok(lines), Ok(_)) => final(page)@ == old(page)@ + lines,
            (Err(e), Err(f)) => e == f,
            _ => false,
        },
{
    let ghost before = page@;
    let ghost k = ev@;
    let all: [Quantity; 7] = [
        Quantity::Alpha,
        Quantity::Bandwidth,
        Quantity::Beta,
        Quantity::AlphaBeta,
        Quantity::Sigma,
        Quantity::Freq,
        Quantity::AmpDb,
    ];
    assert(all@ =~= listed());
    let ghost mut lines: Seq<Seq<char>> = seq![];
    let mut i: usize = 0;
    assert(page@ =~= before + lines);
    while i < 7
        invariant
            n.repeatable(),
            calc.repeatable(),
            i <= 7,
            all@ == listed(),
            k == old(ev)@,
            before == old(page)@,
            page@ == before + lines,
            parameters_through(n, calc, *book, k, i as int) == (
                Ok::<Seq<Seq<char>>, FofError>(lines),
                ev@,
            ),
        decreases 7 - i,
    {
        let q = all[i];
        match ev.column(calc, book.selections.as_slice(), q) {
            Ok(xs) => {
                parameter(n, calc, q, &xs, page);
                proof {
                    let more = parameter_line(n, calc, q, xs@);
                    assert(before + lines + more =~= before + (lines + more));
                    lines = lines + more;
                }
            },
            Err(e) => {
                proof {
                    assert(parameters_through(n, calc, *book, k, i + 1) == (
                        Err::<Seq<Seq<char>>, FofError>(e),
                        ev@,
                    ));
                    lemma_parameters_stopped(n, calc, *book, k, i + 1, 7);
                }
                return Err(e);
            },
        }
        i += 1;
    }
    Ok(())
}

/// The heading of the parameters, with the kinds where there are several.
pub open spec fn kinds_lines(kinds: Seq<(AtomKind, usize)>) -> Seq<Seq<char>> {
    seq![
        ""@,
        "parameters"@,
    ] + (if kinds.len() > 1 {
        seq![
            "  kinds               "@ + joined(kind_texts(kinds), kinds.len() as int),
        ]
    } else {
        seq![]
    })
}

/// Appends [`kinds_lines`].
fn kinds(kinds: &Vec<(AtomKind, usize)>, page: &mut Page)
    ensures
        final(page)@ == old(page)@ + kinds_lines(kinds@),
{
    let ghost before = page@;
    page.push("".to_owned());
    page.push("parameters".to_owned());
    if kinds.len() > 1 {
        let mut line = "  kinds               ".to_owned();
        line.append(join(&kinds_text(kinds)).as_str());
        page.push(line);
    }
    assert(page@ =~= before + kinds_lines(kinds@));
}

/// How far refinement moved the seeds.
pub open spec fn drift_lines<N: Notation>(n: &N, d: Diagnostics) -> Seq<Seq<char>> {
    (if d.d_ln_alpha.n > 0 || d.d_ln_sigma.n == 0 {
        seq![
            "  refinement moved    |ln a/a0| median "@ + n.fixed_of(d.d_ln_alpha.median, 3)
                + ", |ln b/b0| median "@ + n.fixed_of(d.d_ln_beta.median, 3),
        ]
    } else {
        seq![]
    }) + (if d.d_ln_sigma.n > 0 {
        seq![
            "  refinement moved    |ln s/s0| median "@ + n.fixed_of(d.d_ln_sigma.median, 3),
        ]
    } else {
        seq![]
    })
}

/// Appends [`drift_lines`].
fn drift<N: Notation>(n: &N, d: &Diagnostics, page: &mut Page)
    requires
        n.repeatable(),
    ensures
        final(page)@ == old(page)@ + drift_lines(n, *d),
{
    let ghost before = page@;
    if d.d_ln_alpha.n > 0 || d.d_ln_sigma.n == 0 {
        let mut line = "  refinement moved    |ln a/a0| median ".to_owned();
        line.append(n.fixed(d.d_ln_alpha.median, 3).as_str());
        line.append(", |ln b/b0| median ");
        line.append(n.fixed(d.d_ln_beta.median, 3).as_str());
        page.push(line);
    }
    if d.d_ln_sigma.n > 0 {
        let mut line = "  refinement moved    |ln s/s0| median ".to_owned();
        line.append(n.fixed(d.d_ln_sigma.median, 3).as_str());
        page.push(line);
    }
    assert(page@ =~= before + drift_lines(n, *d));
}

/// The grid the seeds came from, with a note on where its settings came from.
pub open spec fn grid_lines<N: Notation>(n: &N, d: Diagnostics, note: Seq<char>) -> Seq<Seq<char>> {
    seq![""@, "seed grid ("@ + note + ")"@] + (match d.edge_pileup {
        Some(w) => seq!["  WARNING: "@ + w@],
        None => seq![],
    }) + drift_lines(n, d)
}

/// Appends [`grid_lines`].
fn grid<N: Notation>(n: &N, d: &Diagnostics, note: &str, page: &mut Page)
    requires
        n.repeatable(),
    ensures
        final(page)@ == old(page)@ + grid_lines(n, *d, note@),
{
    let ghost before = page@;
    page.push("".to_owned());
    let mut line = "seed grid (".to_owned();
    line.append(note);
    line.append(")");
    page.push(line);
    if let Some(w) = &d.edge_pileup {
        let mut line = "  WARNING: ".to_owned();
        line.append(w.as_str());
        page.push(line);
    }
    drift(n, d, page);
    assert(page@ =~= before + grid_lines(n, *d, note@));
}

/// What a summary says before it comes to the parameters.
#[verifier::opaque]
pub open spec fn head_lines<N: Notation>(
    n: &N,
    book: Book,
    s: BookSummary,
    residual: Option<ResidualBook>,
) -> Seq<Seq<char>> {
    book_lines(n, s) + convergence_lines(n, s) + energy_lines(n, s) + pursuit_lines(n, s)
        + analysed_lines(n, residual) + kinds_lines(kinds_selected(book.selections@))
}

/// What is said of the analysis of the residual, where there is one.
pub open spec fn analysed_lines<N: Notation>(n: &N,
    residual: Option<ResidualBook>) -> Seq<Seq<char>> {
    match residual {
        Some(rb) => residual_lines(n, rb),
        None => seq![],
    }
}

/// Appends [`analysed_lines`].
fn analysed<N: Notation>(n: &N, residual: &Option<ResidualBook>, page: &mut Page)
    requires
        n.repeatable(),
    ensures
        final(page)@ == old(page)@ + analysed_lines(n, *residual),
{
    let ghost before = page@;
    if let Some(rb) = residual {
        self::residual(n, rb, page);
    }
    assert(page@ =~= before + analysed_lines(n, *residual));
}

/// Writes [`head_lines`].
fn head<N: Notation>(
    n: &N,
    book: &Book,
    s: &BookSummary,
    residual: &Option<ResidualBook>,
) -> (page: Page)
    requires
        n.repeatable(),
    ensures
        page@ == head_lines(n, *book, *s, *residual),
{
    reveal(head_lines);
    let mut page = Page::new();
    self::book(n, s, &mut page);
    proof {
        lemma_nothing_above(book_lines(n, *s));
    }
    convergence(n, s, &mut page);
    energy(n, s, &mut page);
    pursuit(n, s, &mut page);
    analysed(n, residual, &mut page);
    kinds(&kinds_in(book), &mut page);
    page
}

proof fn lemma_nothing_above(lines: Seq<Seq<char>>)
    ensures
        Seq::<Seq<char>>::empty() + lines == lines,
{
    assert(Seq::<Seq<char>>::empty() + lines =~= lines);
}

/// What a summary says of the grid, where it could be had.
#[verifier::opaque]
pub open spec fn tail_lines<N: Notation>(n: &N, seeds: Option<(Diagnostics,
    String)>) -> Seq<Seq<char>> {
    match seeds {
        Some((d, note)) => grid_lines(n, d, note@),
        None => seq![],
    }
}

/// Appends [`tail_lines`].
fn tail<N: Notation>(n: &N, seeds: &Option<(Diagnostics, String)>, page: &mut Page)
    requires
        n.repeatable(),
    ensures
        final(page)@ == old(page)@ + tail_lines(n, *seeds),
{
    let ghost before = page@;
    if let Some((d, note)) = seeds {
        grid(n, d, note.as_str(), page);
    }
    reveal(tail_lines);
    assert(page@ =~= before + tail_lines(n, *seeds));
}

/// The headline figures of a book, in full: given its figures, the lines on its parameters, the
/// analysis of its residual where it carries one, and the grid its seeds came from where that could
/// be had.
pub open spec fn summary_page<N: Notation>(
    n: &N,
    book: Book,
    s: BookSummary,
    parameters: Seq<Seq<char>>,
    residual: Option<ResidualBook>,
    seeds: Option<(Diagnostics, String)>,
) -> Seq<Seq<char>> {
    head_lines(n, book, s, residual) + parameters + tail_lines(n, seeds)
}

/// The figures a page was written from.
pub open spec fn summarized<N: Notation, C: Calc>(
    n: &N,
    calc: &C,
    book: Book,
    lens: Seq<usize>,
    parameters: Seq<Seq<char>>,
    residual: Option<ResidualBook>,
    seeds: Option<(Diagnostics, String)>,
    page: Seq<Seq<char>>,
    warned: Option<Seq<char>>,
    s: BookSummary,
) -> bool {
    &&& is_summary(calc, s, book, lens)
    &&& page == summary_page(n, book, s, parameters, residual, seeds)
    &&& warned == warning(n, s)
}

/// What is known of a book's supports before any was rendered.
pub open spec fn unseen(book: Book) -> Known {
    Known {
        sample_rate: book.sample_rate,
        initial_energy: book.initial_energy,
        fast_support: false,
        support: Map::empty(),
    }
}

/// The supports of a book's atoms, rendered from scratch, and what is known of them after.
pub open spec fn seen<C: Calc>(calc: &C, book: Book) -> (Result<Seq<usize>, FofError>, Known) {
    supports_through(calc, unseen(book), book.selections@, book.selections@.len() as int)
}

/// The lines on a book's parameters, once its supports are known.
pub open spec fn parameters_seen<N: Notation, C: Calc>(n: &N, calc: &C, book: Book) -> Result<
    Seq<Seq<char>>,
    FofError,
> {
    parameters_through(n, calc, book, seen(calc, book).1, 7).0
}

/// The page and the warning are those of the book's own figures.
#[verifier::opaque]
pub open spec fn told<N: Notation, C: Calc>(
    n: &N,
    calc: &C,
    book: Book,
    residual: Option<ResidualBook>,
    seeds: Option<(Diagnostics, String)>,
    page: Seq<Seq<char>>,
    warned: Option<Seq<char>>,
) -> bool {
    exists|s: BookSummary| #[trigger]
        summarized(
            n,
            calc,
            book,
            seen(calc, book).0->Ok_0,
            parameters_seen(n, calc, book)->Ok_0,
            residual,
            seeds,
            page,
            warned,
            s,
        )
}

proof fn lemma_told<N: Notation, C: Calc>(
    n: &N,
    calc: &C,
    book: Book,
    residual: Option<ResidualBook>,
    seeds: Option<(Diagnostics, String)>,
    page: Seq<Seq<char>>,
    warned: Option<Seq<char>>,
    s: BookSummary,
)
    requires
        summarized(
            n,
            calc,
            book,
            seen(calc, book).0->Ok_0,
            parameters_seen(n, calc, book)->Ok_0,
            residual,
            seeds,
            page,
            warned,
            s,
        ),
    ensures
        told(n, calc, book, residual, seeds, page, warned),
{
    reveal(told);
}

/// A text that may be missing.
pub open spec fn maybe(t: Option<String>) -> Option<Seq<char>> {
    match t {
        Some(t) => Some(t@),
        None => None,
    }
}

/// The headline figures of a book as text, and what they warn of.
///
/// Fails only where an atom's support cannot be rendered.
pub fn cmd_summary<N: Notation, C: Calc>(
    n: &N,
    calc: &C,
    book: &Book,
    residual: &Option<ResidualBook>,
    seeds: &Option<(Diagnostics, String)>,
) -> (r: Result<(Page, Option<String>), FofError>)
    requires
        n.repeatable(),
        calc.repeatable(),
    ensures
        r matches Err(e) ==> {
            ||| seen(calc, *book).0 == Err::<Seq<usize>, FofError>(e)
            ||| seen(calc, *book).0 is Ok && parameters_seen(n, calc, *book) == Err::<
                Seq<Seq<char>>,
                FofError,
            >(e)
        },
        r matches Ok((page, warned)) ==> {
            &&& seen(calc, *book).0 is Ok
            &&& parameters_seen(n, calc, *book) is Ok
            &&& told(n, calc, *book, *residual, *seeds, page@, maybe(warned))
        },
{
    let mut ev = Evaluator::new(book.sample_rate, book.initial_energy);
    let s = match summarize(calc, book, &mut ev) {
        Ok(s) => s,
        Err(e) => {
            return Err(e);
        },
    };
    assert(ev@ == seen(calc, *book).1);
    let warned = summary_warning(n, &s);
    let mut page = head(n, book, &s, residual);
    match parameters(n, calc, book, &mut ev, &mut page) {
        Ok(_) => {},
        Err(e) => {
            return Err(e);
        },
    }
    tail(n, seeds, &mut page);
    proof {
        lemma_told(n, calc, *book, *residual, *seeds, page@, maybe(warned), s);
    }
    Ok((page, warned))
}

// ---------------------------------------------------------------------------------------------
// the diagnostics
// ---------------------------------------------------------------------------------------------

/// The seeds of the first `m` blocks together.
pub open spec fn seeds_through(blocks: Seq<BlockUse>, m: int) -> int
    decreases m,
{
    if m <= 0 {
        0
    } else {
        seeds_through(blocks, m - 1) + blocks[m - 1].count
    }
}

/// One block's row.
pub open spec fn block_cells<N: Notation>(n: &N, b: BlockUse, total: usize) -> Seq<Seq<char>> {
    let milli = Single { bits: THOUSAND_SINGLE };
    let (alpha, beta, sigma) = match b.shape {
        Shape::Fof(p) => (
            n.fixed_of(n.widen_of(p.alpha), 0),
            n.fixed_of(n.widen_of(n.times_single_of(p.beta, milli)), 2),
            "-"@,
        ),
        Shape::Gaussian(g) => (
            "-"@,
            "-"@,
            n.fixed_of(n.widen_of(n.times_single_of(g.sigma, milli)), 2),
        ),
    };
    seq![
        written(b.index as int),
        b.shape.family().spelling(),
        alpha,
        beta,
        sigma,
        written(b.support_len as int),
        written(b.count as int),
        n.fixed_of(
            if total > 0 {
                percent_of(n, n.count_of(b.count), n.count_of(total))
            } else {
                Double { bits: 0 }
            },
            1,
        ),
        n.fixed_of(n.times_of(Double { bits: HUNDRED }, b.energy_share), 1),
    ]
}

/// The table of the dictionary's blocks.
pub open spec fn block_table<N: Notation>(n: &N, blocks: Seq<BlockUse>) -> Contents {
    let total = seeds_through(blocks, blocks.len() as int) as usize;
    Contents {
        headers: seq![
            "block"@,
            "kind"@,
            "alpha"@,
            "beta_ms"@,
            "sigma_ms"@,
            "support"@,
            "seeds"@,
            "%"@,
            "energy %"@,
        ],
        rows: Seq::new(blocks.len(), |i: int| block_cells(n, blocks[i], total)),
        left: seq![],
    }
}

fn decimal(k: usize) -> (r: String)
    ensures
        r@ == written(k as int),
{
    let mut text = String::new();
    push_number(&mut text, k as u64);
    assert(text@ =~= written(k as int));
    text
}

fn block_row<N: Notation>(n: &N, b: &BlockUse, total: usize) -> (r: Vec<String>)
    requires
        n.repeatable(),
    ensures
        texts(r@) == block_cells(n, *b, total),
{
    let milli = Single { bits: THOUSAND_SINGLE };
    let mut cells: Vec<String> = Vec::new();
    cells.push(decimal(b.index));
    cells.push(b.shape.kind().name().to_owned());
    match b.shape {
        Shape::Fof(p) => {
            cells.push(n.fixed(n.widen(p.alpha), 0));
            cells.push(n.fixed(n.widen(n.times_single(p.beta, milli)), 2));
            cells.push("-".to_owned());
        },
        Shape::Gaussian(g) => {
            cells.push("-".to_owned());
            cells.push("-".to_owned());
            cells.push(n.fixed(n.widen(n.times_single(g.sigma, milli)), 2));
        },
    }
    cells.push(decimal(b.support_len));
    cells.push(decimal(b.count));
    let seeds = if total > 0 {
        n.over(n.times(Double { bits: HUNDRED }, n.count(b.count)), n.count(total))
    } else {
        Double { bits: 0 }
    };
    cells.push(n.fixed(seeds, 1));
    cells.push(n.fixed(n.times(Double { bits: HUNDRED }, b.energy_share), 1));
    assert(texts(cells@) =~= block_cells(n, *b, total));
    cells
}

proof fn lemma_seeds_grow(blocks: Seq<BlockUse>, a: int, b: int)
    requires
        0 <= a <= b <= blocks.len(),
    ensures
        0 <= seeds_through(blocks, a) <= seeds_through(blocks, b),
    decreases b,
{
    if a < b {
        lemma_seeds_grow(blocks, a, b - 1);
    } else if b > 0 {
        lemma_seeds_grow(blocks, a - 1, b - 1);
    }
}

/// The table of the dictionary's blocks.
fn block_use<N: Notation>(n: &N, blocks: &Vec<BlockUse>) -> (r: Page)
    requires
        n.repeatable(),
        seeds_through(blocks@, blocks@.len() as int) <= usize::MAX,
    ensures
        r@ == laid_out(block_table(n, blocks@), "  "@),
{
    let mut total: usize = 0;
    let mut i: usize = 0;
    while i < blocks.len()
        invariant
            i <= blocks@.len(),
            seeds_through(blocks@, blocks@.len() as int) <= usize::MAX,
            total == seeds_through(blocks@, i as int),
        decreases blocks@.len() - i,
    {
        proof {
            lemma_seeds_grow(blocks@, i + 1, blocks@.len() as int);
        }
        total += blocks[i].count;
        i += 1;
    }
    let heads: [&str; 9] = [
        "block",
        "kind",
        "alpha",
        "beta_ms",
        "sigma_ms",
        "support",
        "seeds",
        "%",
        "energy %",
    ];
    let mut t = Table::new(heads.as_slice());
    let ghost want = block_table(n, blocks@);
    assert(t@.headers =~= want.headers);
    assert(t@.left =~= want.left);
    assert(t@.rows =~= want.rows.take(0));
    let mut k: usize = 0;
    while k < blocks.len()
        invariant
            n.repeatable(),
            k <= blocks@.len(),
            total == seeds_through(blocks@, blocks@.len() as int),
            want == block_table(n, blocks@),
            t@.headers == want.headers,
            t@.left == want.left,
            t@.rows == want.rows.take(k as int),
        decreases blocks@.len() - k,
    {
        t.row(block_row(n, &blocks[k], total));
        assert(want.rows.take(k + 1) =~= want.rows.take(k as int).push(want.rows[k as int]));
        k += 1;
    }
    assert(want.rows.take(want.rows.len() as int) =~= want.rows);
    assert(t@ == want);
    t.render("  ")
}

/// How far refinement walked each parameter from its seed.
pub open spec fn walked_lines<N: Notation>(n: &N, d: Diagnostics) -> Seq<Seq<char>> {
    seq![
        ""@,
        "refinement drift from the seed"@,
        "  |ln alpha/alpha_0|  "@ + statistics(n, d.d_ln_alpha),
        "  |ln beta/beta_0|    "@ + statistics(n, d.d_ln_beta),
    ] + (if d.d_ln_sigma.n > 0 {
        seq![
            "  |ln sigma/sigma_0|  "@ + statistics(n, d.d_ln_sigma),
        ]
    } else {
        seq![]
    }) + seq![
        "  |f - bin| Hz        "@ + statistics(n, d.d_f_hz),
        "  |t0 - onset| samp   "@ + statistics(n, d.d_t0),
        "  (one alpha rung is ln 1.6 = 0.470; one beta rung about ln 3.3 = 1.19)"@,
    ]
}

/// Appends [`walked_lines`].
fn walked<N: Notation>(n: &N, d: &Diagnostics, page: &mut Page)
    requires
        n.repeatable(),
    ensures
        final(page)@ == old(page)@ + walked_lines(n, *d),
{
    let ghost before = page@;
    page.push("".to_owned());
    page.push("refinement drift from the seed".to_owned());
    let mut line = "  |ln alpha/alpha_0|  ".to_owned();
    line.append(summary_text(n, &d.d_ln_alpha).as_str());
    page.push(line);
    let mut line = "  |ln beta/beta_0|    ".to_owned();
    line.append(summary_text(n, &d.d_ln_beta).as_str());
    page.push(line);
    if d.d_ln_sigma.n > 0 {
        let mut line = "  |ln sigma/sigma_0|  ".to_owned();
        line.append(summary_text(n, &d.d_ln_sigma).as_str());
        page.push(line);
    }
    let mut line = "  |f - bin| Hz        ".to_owned();
    line.append(summary_text(n, &d.d_f_hz).as_str());
    page.push(line);
    let mut line = "  |t0 - onset| samp   ".to_owned();
    line.append(summary_text(n, &d.d_t0).as_str());
    page.push(line);
    page.push("  (one alpha rung is ln 1.6 = 0.470; one beta rung about ln 3.3 = 1.19)".to_owned());
    assert(page@ =~= before + walked_lines(n, *d));
}

/// How well conditioned the seeds were.
pub open spec fn conditioning_lines<N: Notation>(n: &N, d: Diagnostics,
    rho_sq_max: Single) -> Seq<Seq<char>> {
    seq![
        ""@,
        "conditioning"@,
        "  ill-conditioned     "@ + written(d.ill_conditioned as int)
            + " atoms whose seed bin had rho^2 above "@ + n.plain_single_of(rho_sq_max),
    ] + (if d.off_grid_seeds > 0 {
        seq![
            "  off-grid seeds      "@ + written(d.off_grid_seeds as int)
                + " — the config probably does not match the run"@,
        ]
    } else {
        seq![]
    })
}

/// Appends [`conditioning_lines`].
fn conditioning<N: Notation>(n: &N, d: &Diagnostics, rho_sq_max: Single, page: &mut Page)
    requires
        n.repeatable(),
    ensures
        final(page)@ == old(page)@ + conditioning_lines(n, *d, rho_sq_max),
{
    let ghost before = page@;
    page.push("".to_owned());
    page.push("conditioning".to_owned());
    let mut line = "  ill-conditioned     ".to_owned();
    push_number(&mut line, d.ill_conditioned as u64);
    line.append(" atoms whose seed bin had rho^2 above ");
    line.append(n.plain_single(rho_sq_max).as_str());
    page.push(line);
    if d.off_grid_seeds > 0 {
        let mut line = "  off-grid seeds      ".to_owned();
        push_number(&mut line, d.off_grid_seeds as u64);
        line.append(" — the config probably does not match the run");
        page.push(line);
    }
    assert(page@ =~= before + conditioning_lines(n, *d, rho_sq_max));
}

/// The note on where the settings came from, and what piles up where it should not.
pub open spec fn opening_lines(d: Diagnostics, note: Seq<char>) -> Seq<Seq<char>> {
    seq![note, ""@] + (match d.edge_pileup {
        Some(w) => seq!["WARNING: "@ + w@, ""@],
        None => seq![],
    }) + seq!["blocks"@]
}

/// Appends [`opening_lines`].
fn opening(d: &Diagnostics, note: &str, page: &mut Page)
    ensures
        final(page)@ == old(page)@ + opening_lines(*d, note@),
{
    let ghost before = page@;
    page.push(note.to_owned());
    page.push("".to_owned());
    if let Some(w) = &d.edge_pileup {
        let mut line = "WARNING: ".to_owned();
        line.append(w.as_str());
        page.push(line);
        page.push("".to_owned());
    }
    page.push("blocks".to_owned());
    assert(page@ =~= before + opening_lines(*d, note@));
}

/// What the diagnostics come to as text.
pub open spec fn diagnostics_page<N: Notation>(
    n: &N,
    d: Diagnostics,
    rho_sq_max: Single,
    note: Seq<char>,
) -> Seq<Seq<char>> {
    opening_lines(d, note) + laid_out(block_table(n, d.blocks@), "  "@) + walked_lines(n, d)
        + conditioning_lines(n, d, rho_sq_max)
}

/// The diagnostics as text, with a note on where the settings came from.
///
/// A configuration that does not match the run gives silently meaningless drift figures, so the
/// caller is always told which settings were used.
pub fn cmd_diag<N: Notation>(n: &N, d: &Diagnostics, rho_sq_max: Single, note: &str) -> (r: Page)
    requires
        n.repeatable(),
        seeds_through(d.blocks@, d.blocks@.len() as int) <= usize::MAX,
    ensures
        r@ == diagnostics_page(n, *d, rho_sq_max, note@),
{
    let mut page = Page::new();
    opening(d, note, &mut page);
    proof {
        lemma_nothing_above(opening_lines(*d, note@));
    }
    append_page(&mut page, block_use(n, &d.blocks));
    walked(n, d, &mut page);
    conditioning(n, d, rho_sq_max, &mut page);
    page
}

// ---------------------------------------------------------------------------------------------
// the convergence
// ---------------------------------------------------------------------------------------------

/// The table of a convergence trace at its tenths.
pub open spec fn decile_table<N: Notation>(n: &N, trace: Seq<Single>) -> Contents {
    Contents {
        headers: seq!["atoms"@, "SNR dB"@],
        rows: Seq::new(
            11,
            |i: int|
                {
                    let k = decile(trace.len() as int, i);
                    seq![written(k + 1), n.fixed_of(n.widen_of(trace[k]), 2)]
                },
        ),
        left: seq![],
    }
}

/// The entry of `len` at tenth `i`.
pub open spec fn decile(len: int, i: int) -> int {
    (i * (len - 1)) / 10
}

/// The first tenth is the first entry, the last the last, and every one an entry.
pub proof fn law_deciles_span_a_trace(len: int, i: int)
    requires
        len > 0,
        0 <= i <= 10,
    ensures
        decile(len, 0) == 0,
        decile(len, 10) == len - 1,
        0 <= decile(len, i) < len,
{
    assert(0 <= i * (len - 1) <= 10 * (len - 1)) by (nonlinear_arith)
        requires
            0 <= i <= 10,
            len > 0,
    ;
}

fn deciles<N: Notation>(n: &N, trace: &Vec<Single>) -> (r: Page)
    requires
        n.repeatable(),
        trace@.len() > 0,
    ensures
        r@ == laid_out(decile_table(n, trace@), "  "@),
{
    let heads: [&str; 2] = ["atoms", "SNR dB"];
    let mut t = Table::new(heads.as_slice());
    let ghost want = decile_table(n, trace@);
    assert(t@.headers =~= want.headers);
    assert(t@.left =~= want.left);
    assert(t@.rows =~= want.rows.take(0));
    let len: usize = trace.len();
    let mut i: usize = 0;
    while i <= 10
        invariant
            n.repeatable(),
            i <= 11,
            len == trace@.len(),
            len > 0,
            want == decile_table(n, trace@),
            t@.headers == want.headers,
            t@.left == want.left,
            t@.rows == want.rows.take(i as int),
        decreases 11 - i,
    {
        proof {
            law_deciles_span_a_trace(len as int, i as int);
            assert(i as u128 * (len - 1) as u128 <= 10 * 0xffff_ffff_ffff_ffff) by (nonlinear_arith)
                requires
                    i <= 10,
                    0 < len,
                    len <= 0xffff_ffff_ffff_ffff,
            ;
        }
        let k: usize = ((i as u128 * (len - 1) as u128) / 10) as usize;
        assert(k == decile(len as int, i as int));
        let mut cells: Vec<String> = Vec::new();
        cells.push(decimal_above(k));
        cells.push(n.fixed(n.widen(trace[k]), 2));
        assert(texts(cells@) =~= want.rows[i as int]);
        t.row(cells);
        assert(want.rows.take(i + 1) =~= want.rows.take(i as int).push(want.rows[i as int]));
        i += 1;
    }
    assert(want.rows.take(11) =~= want.rows);
    assert(t@ == want);
    t.render("  ")
}

/// The number after `k` in decimal.
fn decimal_above(k: usize) -> (r: String)
    requires
        k < usize::MAX,
    ensures
        r@ == written(k + 1),
{
    decimal(k + 1)
}

/// When a target was reached, if it was.
pub open spec fn attained<N: Notation>(n: &N, target: Single, at: Option<usize>) -> Seq<char> {
    let level = padded(n.fixed_of(n.widen_of(target), 0), 4, false);
    match at {
        Some(k) => "  "@ + level + " dB at "@ + written(k as int) + " atoms"@,
        None => "  "@ + level + " dB not reached"@,
    }
}

/// Which page tells a convergence: how much there is of it, its tenths, and the targets it met.
pub open spec fn tells_convergence<N: Notation, C: Calc>(
    n: &N,
    calc: &C,
    book: Book,
    page: Seq<Seq<char>>,
    at: Seq<Option<usize>>,
) -> bool {
    let trace = crate::book::trace(calc, book);
    let snr = calc.snr_of(
        book.initial_energy,
        crate::book::energy_left(book.initial_energy, book.selections@),
    );
    &&& at.len() == 4
    &&& forall|i: int|
        0 <= i < 4 ==> crate::book::needed(
            calc,
            book.initial_energy,
            book.selections@,
            targets()[i],
            #[trigger] at[i],
        )
    &&& page == seq![
        "convergence  ("@ + written(trace.len() as int) + " atoms, final "@ + n.fixed_of(
            n.widen_of(snr),
            1,
        ) + " dB)"@,
    ] + laid_out(decile_table(n, trace), "  "@) + Seq::new(
        4,
        |i: int| attained(n, targets()[i], at[i]),
    )
}

/// The page tells the book's convergence.
#[verifier::opaque]
pub open spec fn is_convergence<N: Notation, C: Calc>(
    n: &N,
    calc: &C,
    book: Book,
    page: Seq<Seq<char>>,
) -> bool {
    exists|at: Seq<Option<usize>>| #[trigger] tells_convergence(n, calc, book, page, at)
}

proof fn lemma_is_convergence<N: Notation, C: Calc>(
    n: &N,
    calc: &C,
    book: Book,
    page: Seq<Seq<char>>,
    at: Seq<Option<usize>>,
)
    requires
        tells_convergence(n, calc, book, page, at),
    ensures
        is_convergence(n, calc, book, page),
{
    reveal(is_convergence);
}

/// The convergence of a book as text, at its tenths: the whole trace is one line per atom and nobody
/// reads thousands of them, but the shape, where it flattens, is the diagnostic.
pub fn cmd_snr<N: Notation, C: Calc>(n: &N, calc: &C, book: &Book) -> (r: Result<Page, String>)
    requires
        n.repeatable(),
        calc.repeatable(),
    ensures
        match r {
            Ok(page) => book.selections@.len() > 0 && is_convergence(n, calc, *book, page@),
            Err(why) => book.selections@.len() == 0 && why@ == "the book has no atoms"@,
        },
{
    let trace = book.snr_trace(calc);
    if trace.len() == 0 {
        return Err("the book has no atoms".to_owned());
    }
    let mut page = Page::new();
    let mut line = "convergence  (".to_owned();
    push_number(&mut line, trace.len() as u64);
    line.append(" atoms, final ");
    line.append(n.fixed(n.widen(book.snr_db(calc)), 1).as_str());
    line.append(" dB)");
    let ghost title = line@;
    page.push(line);
    append_page(&mut page, deciles(n, &trace));
    let goals: [Single; 4] = [
        Single { bits: 0x4120_0000 },
        Single { bits: 0x41a0_0000 },
        Single { bits: 0x41f0_0000 },
        Single { bits: 0x4220_0000 },
    ];
    assert(goals@ =~= targets());
    let ghost top = page@;
    let ghost mut at: Seq<Option<usize>> = seq![];
    assert(page@ =~= top + Seq::new(0, |i: int| attained(n, targets()[i], at[i])));
    let mut i: usize = 0;
    while i < 4
        invariant
            n.repeatable(),
            calc.repeatable(),
            i <= 4,
            goals@ == targets(),
            at.len() == i,
            forall|j: int|
                0 <= j < i ==> crate::book::needed(
                    calc,
                    book.initial_energy,
                    book.selections@,
                    targets()[j],
                    #[trigger] at[j],
                ),
            page@ == top + Seq::new(i as nat, |j: int| attained(n, targets()[j], at[j])),
        decreases 4 - i,
    {
        let target = goals[i];
        let when = book.atoms_to_reach(calc, target);
        let mut line = "  ".to_owned();
        push_padded(&mut line, n.fixed(n.widen(target), 0).as_str(), 4, false);
        match when {
            Some(k) => {
                line.append(" dB at ");
                push_number(&mut line, k as u64);
                line.append(" atoms");
            },
            None => {
                line.append(" dB not reached");
            },
        }
        assert(line@ == attained(n, target, when));
        page.push(line);
        let ghost before = at;
        proof {
            at = at.push(when);
            assert forall|j: int| 0 <= j < i + 1 implies crate::book::needed(
                calc,
                book.initial_energy,
                book.selections@,
                targets()[j],
                #[trigger] at[j],
            ) by {
                if j < i {
                    assert(at[j] == before[j]);
                }
            }
            assert(page@ =~= top + Seq::new(
                (i + 1) as nat,
                |j: int| attained(n, targets()[j], at[j]),
            ));
        }
        i += 1;
    }
    proof {
        assert(top =~= seq![title] + laid_out(decile_table(n, trace@), "  "@));
        lemma_is_convergence(n, calc, *book, page@, at);
    }
    Ok(page)
}

// ---------------------------------------------------------------------------------------------
// the map
// ---------------------------------------------------------------------------------------------

/// The sum of entries `from` up to `to`.
pub open spec fn sum_of<N: Notation>(n: &N, v: Seq<Double>, from: int, to: int) -> Double
    decreases to - from,
{
    if to <= from {
        Double { bits: 0 }
    } else {
        n.plus_of(sum_of(n, v, from, to - 1), v[to - 1])
    }
}

fn total_of<N: Notation>(n: &N, v: &Vec<Double>, from: usize, to: usize) -> (r: Double)
    requires
        n.repeatable(),
        from <= to <= v@.len(),
    ensures
        r == sum_of(n, v@, from as int, to as int),
{
    let mut sum = Double { bits: 0 };
    let mut i: usize = from;
    while i < to
        invariant
            n.repeatable(),
            from <= i <= to <= v@.len(),
            sum == sum_of(n, v@, from as int, i as int),
        decreases to - i,
    {
        sum = n.plus(sum, v[i]);
        i += 1;
    }
    sum
}

/// How many entries one row of a marginal stands for.
pub open spec fn stride(len: int) -> int {
    if len / 10 > 1 {
        len / 10
    } else {
        1
    }
}

/// One past the last entry of row `i`.
pub open spec fn row_end(len: int, i: int) -> int {
    if (i + 1) * stride(len) < len {
        (i + 1) * stride(len)
    } else {
        len
    }
}

/// The rows a marginal comes to.
pub open spec fn row_count(len: int) -> int {
    (len + stride(len) - 1) / stride(len)
}

/// A marginal's rows: the lower edge of the first bin, the energy, and its share of the whole.
pub open spec fn marginal_rows<N: Notation>(
    n: &N,
    v: Seq<Double>,
    edges: Seq<Seq<char>>,
    m: int,
) -> Seq<Seq<Seq<char>>> {
    Seq::new(
        m as nat,
        |i: int|
            {
                let from = i * stride(v.len() as int);
                let chunk = sum_of(n, v, from, row_end(v.len() as int, i));
                seq![
                    edges[from],
                    short(n, chunk),
                    share(n, chunk, sum_of(n, v, 0, v.len() as int)),
                ]
            },
    )
}

/// The table of a marginal.
pub open spec fn marginal_contents<N: Notation>(
    n: &N,
    v: Seq<Double>,
    edges: Seq<Seq<char>>,
) -> Contents {
    Contents {
        headers: seq!["from"@, "energy"@, "%"@],
        rows: marginal_rows(n, v, edges, row_count(v.len() as int)),
        left: seq![],
    }
}

/// Evenly-spaced entries of a marginal, about ten, with each bin's lower edge.
pub fn marginal_table<N: Notation>(n: &N, v: &Vec<Double>, edges: &Vec<String>) -> (r: Page)
    requires
        n.repeatable(),
        edges@.len() >= v@.len(),
    ensures
        r@ == laid_out(marginal_contents(n, v@, texts(edges@)), "  "@),
{
    let heads: [&str; 3] = ["from", "energy", "%"];
    let mut t = Table::new(heads.as_slice());
    let len: usize = v.len();
    let total = total_of(n, v, 0, len);
    let step: usize = if len / 10 > 1 {
        len / 10
    } else {
        1
    };
    assert(step == stride(len as int));
    let ghost names = texts(edges@);
    let ghost mut k: int = 0;
    let mut from: usize = 0;
    assert(t@.rows =~= marginal_rows(n, v@, names, 0));
    assert(0 * step == 0) by (nonlinear_arith);
    while from < len
        invariant
            n.repeatable(),
            len == v@.len(),
            step >= 1,
            step == stride(len as int),
            edges@.len() >= v@.len(),
            names == texts(edges@),
            total == sum_of(n, v@, 0, len as int),
            k >= 0,
            from == (if k * step < len {
                k * step
            } else {
                len as int
            }),
            k > 0 ==> (k - 1) * step < len,
            t@.headers == heads_of(),
            t@.left == Seq::<usize>::empty(),
            t@.rows == marginal_rows(n, v@, names, k),
        decreases len - from,
    {
        let end: usize = if step < len - from {
            from + step
        } else {
            len
        };
        assert((k + 1) * step == k * step + step) by (nonlinear_arith);
        assert(end == row_end(len as int, k));
        let chunk = total_of(n, v, from, end);
        let mut cells: Vec<String> = Vec::new();
        cells.push(edges[from].as_str().to_owned());
        cells.push(num(n, chunk));
        cells.push(share_text(n, chunk, total));
        assert(texts(cells@) =~= marginal_rows(n, v@, names, k + 1)[k]);
        t.row(cells);
        assert(t@.rows =~= marginal_rows(n, v@, names, k + 1));
        proof {
            k = k + 1;
        }
        from = end;
    }
    proof {
        lemma_rows_cover(len as int, step as int, k);
        let want = marginal_contents(n, v@, names);
        assert(t@.headers =~= want.headers);
        assert(t@.left =~= want.left);
        assert(t@ == want);
    }
    t.render("  ")
}

/// The headings of a marginal.
pub open spec fn heads_of() -> Seq<Seq<char>> {
    seq!["from"@, "energy"@, "%"@]
}

/// The rows stop where the entries do.
proof fn lemma_rows_cover(len: int, step: int, k: int)
    requires
        len >= 0,
        step >= 1,
        k >= 0,
        k * step >= len,
        k > 0 ==> (k - 1) * step < len,
    ensures
        k == (len + step - 1) / step,
{
    let rem = len + step - 1 - k * step;
    assert(0 <= rem < step) by (nonlinear_arith)
        requires
            rem == len + step - 1 - k * step,
            k * step >= len,
            len >= 0,
            step >= 1,
            k > 0 ==> (k - 1) * step < len,
            k >= 0,
    ;
    vstd::arithmetic::div_mod::lemma_fundamental_div_mod_converse(len + step - 1, step, k, rem);
}

/// The map's total against the book's own figure. The two agree to rounding when the map deposits
/// what each atom removed; a visible gap is worth saying out loud rather than leaving in a picture.
pub open spec fn accounting<N: Notation>(n: &N, accounted: Double, captured: Double) -> Option<
    Seq<char>,
> {
    let gap = n.over_of(crate::display::unsigned(n.minus_of(accounted, captured)), captured);
    if !captured.at_most(Double { bits: 0 }) && (Double { bits: MILLIONTH }).less(gap) {
        Some(
            "rmpstat: note: atoms sum to "@ + n.fixed_of(n.over_of(accounted, captured), 4)
                + "x what the pursuit removed — greedy MP re-removes energy earlier atoms had already taken, so below 1 is ordinary"@,
        )
    } else {
        None
    }
}

/// What there is to say of the map's total against the book's own figure.
pub fn report_accounting<N: Notation>(n: &N, accounted: Double,
    captured: Double) -> (r: Option<String>)
    requires
        n.repeatable(),
    ensures
        maybe(r) == accounting(n, accounted, captured),
{
    if captured.le(Double { bits: 0 }) {
        return None;
    }
    let gap = n.over(crate::display::without_sign(n.minus(accounted, captured)), captured);
    if (Double { bits: MILLIONTH }).lt(gap) {
        let mut line = "rmpstat: note: atoms sum to ".to_owned();
        line.append(n.fixed(n.over(accounted, captured), 4).as_str());
        line.append(
            "x what the pursuit removed — greedy MP re-removes energy earlier atoms had already taken, so below 1 is ordinary",
        );
        Some(line)
    } else {
        None
    }
}

/// What the map's picture is captioned with.
pub open spec fn caption<N: Notation>(n: &N, map: TfMap, floor: Single) -> Seq<char> {
    let accounted = n.plus_of(map.deposited, map.clipped);
    written(map.atoms as int) + " atoms, "@ + n.fixed_of(
        percent_of(n, map.deposited, accounted.larger(Double { bits: TINY })),
        1,
    ) + "% of the removed energy on the grid — separable-marginal pseudo-Wigner, floor "@
        + n.fixed_of(
        n.widen_of(floor),
        0,
    ) + " dB"@
}

/// What the map's picture is captioned with.
pub fn caption_text<N: Notation>(n: &N, map: &TfMap, floor: Single) -> (r: String)
    requires
        n.repeatable(),
    ensures
        r@ == caption(n, *map, floor),
{
    let accounted = n.plus(map.deposited, map.clipped);
    let mut line = decimal(map.atoms);
    line.append(" atoms, ");
    line.append(
        n.fixed(
            n.over(
                n.times(Double { bits: HUNDRED }, map.deposited),
                accounted.max(Double { bits: TINY }),
            ),
            1,
        ).as_str(),
    );
    line.append("% of the removed energy on the grid — separable-marginal pseudo-Wigner, floor ");
    line.append(n.fixed(n.widen(floor), 0).as_str());
    line.append(" dB");
    line
}

/// What the map covers, and where the energy went.
pub open spec fn account_lines<N: Notation>(n: &N, sample_rate: Single, map: TfMap, captured: Double,
    log_freq: bool) -> Seq<Seq<char>> {
    seq![
        "pseudo-Wigner map  "@ + written(map.grid.columns()) + "x"@ + written(map.grid.rows())
            + " cells"@,
        "  time              "@ + n.fixed_of(n.over_of(map.grid.t_edges@[0],
            n.widen_of(sample_rate)), 3) + " .. "@
            + n.fixed_of(n.over_of(map.grid.t_edges@[map.grid.columns()],
            n.widen_of(sample_rate)), 3) + " s"@,
        "  frequency         "@ + n.fixed_of(n.widen_of(map.grid.f_edges@[0]), 0) + " .. "@
            + n.fixed_of(n.widen_of(map.grid.f_edges@[map.grid.rows()]), 0) + " Hz"@
            + (if log_freq { " (log)"@ } else { ""@ }),
        "  atoms             "@ + written(map.atoms as int) + " drawn, "@
            + written(map.skipped as int) + " skipped"@,
        "  deposited         "@ + n.exponent_of(map.deposited, 6),
        "  clipped           "@ + n.exponent_of(map.clipped, 6),
        "  book removed      "@ + n.exponent_of(captured, 6),
    ]
}

/// Appends [`account_lines`].
fn account<N: Notation>(n: &N, sample_rate: Single, map: &TfMap, captured: Double, log_freq: bool,
    page: &mut Page)
    requires
        map.wf(),
        n.repeatable(),
    ensures
        final(page)@ == old(page)@ + account_lines(n, sample_rate, *map, captured, log_freq),
{
    let ghost before = page@;
    let mut line = "pseudo-Wigner map  ".to_owned();
    push_number(&mut line, map.grid.n_t() as u64);
    line.append("x");
    push_number(&mut line, map.grid.n_f() as u64);
    line.append(" cells");
    page.push(line);
    let mut line = "  time              ".to_owned();
    line.append(n.fixed(n.over(map.grid.t_edges[0], n.widen(sample_rate)), 3).as_str());
    line.append(" .. ");
    line.append(n.fixed(n.over(map.grid.t_edges[map.grid.n_t()], n.widen(sample_rate)),
        3).as_str());
    line.append(" s");
    page.push(line);
    let mut line = "  frequency         ".to_owned();
    line.append(n.fixed(n.widen(map.grid.f_edges[0]), 0).as_str());
    line.append(" .. ");
    line.append(n.fixed(n.widen(map.grid.f_edges[map.grid.n_f()]), 0).as_str());
    line.append(" Hz");
    line.append(if log_freq { " (log)" } else { "" });
    page.push(line);
    let mut line = "  atoms             ".to_owned();
    push_number(&mut line, map.atoms as u64);
    line.append(" drawn, ");
    push_number(&mut line, map.skipped as u64);
    line.append(" skipped");
    page.push(line);
    let mut line = "  deposited         ".to_owned();
    line.append(n.exponent(map.deposited, 6).as_str());
    page.push(line);
    let mut line = "  clipped           ".to_owned();
    line.append(n.exponent(map.clipped, 6).as_str());
    page.push(line);
    let mut line = "  book removed      ".to_owned();
    line.append(n.exponent(captured, 6).as_str());
    page.push(line);
    assert(page@ =~= before + account_lines(n, sample_rate, *map, captured, log_freq));
}

/// What the map is.
pub open spec fn explain_lines(heading: Seq<char>) -> Seq<Seq<char>> {
    seq![
        ""@,
        "  the map is a separable-marginal pseudo-Wigner representation: each atom"@,
        "  contributes the product of its exact time and frequency marginals, summed"@,
        "  per atom so there are no cross-terms."@,
        ""@,
        heading,
    ]
}

/// Appends [`explain_lines`].
fn explain(heading: &str, page: &mut Page)
    ensures
        final(page)@ == old(page)@ + explain_lines(heading@),
{
    let ghost before = page@;
    page.push("".to_owned());
    page.push("  the map is a separable-marginal pseudo-Wigner representation: each atom".to_owned());
    page.push("  contributes the product of its exact time and frequency marginals, summed".to_owned());
    page.push("  per atom so there are no cross-terms.".to_owned());
    page.push("".to_owned());
    let mut line = heading.to_owned();
    page.push(line);
    assert(page@ =~= before + explain_lines(heading@));
}

/// The map in text: its accounts, what it is, and its two marginals.
pub open spec fn map_page<N: Notation>(
    n: &N,
    sample_rate: Single,
    map: TfMap,
    captured: Double,
    log_freq: bool,
    times: Seq<Double>,
    freqs: Seq<Double>,
) -> Seq<Seq<char>> {
    account_lines(n, sample_rate, map, captured, log_freq) + explain_lines("time marginal (deciles)"@)
        + laid_out(marginal_contents(n, times, time_names(n, sample_rate, map)), "  "@) + seq![
        ""@,
        "frequency marginal (deciles)"@,
    ] + laid_out(marginal_contents(n, freqs, freq_names(n, map)), "  "@)
}

/// The names of the time bins.
pub open spec fn time_names<N: Notation>(n: &N, sample_rate: Single, map: TfMap) -> Seq<Seq<char>> {
    Seq::new(
        map.grid.columns() as nat,
        |i: int|
            n.fixed_of(n.over_of(map.grid.t_edges@[i], n.widen_of(sample_rate)), 3),
    )
}

/// The names of the frequency bins.
pub open spec fn freq_names<N: Notation>(n: &N, map: TfMap) -> Seq<Seq<char>> {
    Seq::new(
        map.grid.rows() as nat,
        |j: int| n.fixed_of(n.widen_of(map.grid.f_edges@[j]), 0),
    )
}

fn name_times<N: Notation>(n: &N, sample_rate: Single, map: &TfMap) -> (r: Vec<String>)
    requires
        n.repeatable(),
        map.wf(),
    ensures
        texts(r@) == time_names(n, sample_rate, *map),
        r@.len() == map.grid.columns(),
{
    let mut out: Vec<String> = Vec::new();
    let n_t: usize = map.grid.n_t();
    let mut i: usize = 0;
    while i < n_t
        invariant
            n.repeatable(),
            map.wf(),
            i <= n_t,
            n_t == map.grid.columns(),
            out@.len() == i,
            forall|j: int| 0 <= j < i ==> (#[trigger] out@[j])@ == time_names(n, sample_rate, *map)[j],
        decreases n_t - i,
    {
        out.push(n.fixed(n.over(map.grid.t_edges[i], n.widen(sample_rate)), 3));
        i += 1;
    }
    assert(texts(out@) =~= time_names(n, sample_rate, *map));
    out
}

fn name_freqs<N: Notation>(n: &N, map: &TfMap) -> (r: Vec<String>)
    requires
        n.repeatable(),
        map.wf(),
    ensures
        texts(r@) == freq_names(n, *map),
        r@.len() == map.grid.rows(),
{
    let mut out: Vec<String> = Vec::new();
    let n_f: usize = map.grid.n_f();
    let mut j: usize = 0;
    while j < n_f
        invariant
            n.repeatable(),
            map.wf(),
            j <= n_f,
            n_f == map.grid.rows(),
            out@.len() == j,
            forall|i: int| 0 <= i < j ==> (#[trigger] out@[i])@ == freq_names(n, *map)[i],
        decreases n_f - j,
    {
        out.push(n.fixed(n.widen(map.grid.f_edges[j]), 0));
        j += 1;
    }
    assert(texts(out@) =~= freq_names(n, *map));
    out
}

/// The marginals of a map.
pub open spec fn marginals_of<M: MapMath>(m: &M, map: TfMap) -> (Seq<Double>, Seq<Double>) {
    (
        Seq::new(
            map.grid.columns() as nat,
            |i: int| row_through(m, map.cells@, i, map.grid.rows(), map.grid.rows()),
        ),
        Seq::new(
            map.grid.rows() as nat,
            |j: int| column_through(m, map.cells@, j, map.grid.rows(), map.grid.columns()),
        ),
    )
}

/// The map in text, and what there is to say of its total against the book's own figure.
pub fn cmd_wv<N: Notation, M: MapMath>(
    n: &N,
    m: &M,
    book: &Book,
    map: &TfMap,
    log_freq: bool,
) -> (r: (Page, Option<String>))
    requires
        n.repeatable(),
        m.repeatable(),
        map.wf(),
    ensures
        ({
            let left = crate::book::energy_left(book.initial_energy, book.selections@);
            let captured = n.minus_of(book.initial_energy, left);
            let (times, freqs) = marginals_of(m, *map);
            &&& r.0@ == map_page(n, book.sample_rate, *map, captured, log_freq, times, freqs)
            &&& maybe(r.1) == accounting(n, n.plus_of(map.deposited, map.clipped), captured)
        }),
{
    let captured = n.minus(book.initial_energy, book.residual_energy());
    let times = map.time_marginal(m);
    let freqs = map.freq_marginal(m);
    assert(times@ =~= marginals_of(m, *map).0);
    assert(freqs@ =~= marginals_of(m, *map).1);
    let note = report_accounting(n, n.plus(map.deposited, map.clipped), captured);
    (map_text(n, book.sample_rate, map, captured, log_freq, &times, &freqs), note)
}

fn map_text<N: Notation>(
    n: &N,
    sample_rate: Single,
    map: &TfMap,
    captured: Double,
    log_freq: bool,
    times: &Vec<Double>,
    freqs: &Vec<Double>,
) -> (r: Page)
    requires
        n.repeatable(),
        map.wf(),
        times@.len() == map.grid.columns(),
        freqs@.len() == map.grid.rows(),
    ensures
        r@ == map_page(n, sample_rate, *map, captured, log_freq, times@, freqs@),
{
    let mut page = Page::new();
    account(n, sample_rate, map, captured, log_freq, &mut page);
    proof {
        lemma_nothing_above(account_lines(n, sample_rate, *map, captured, log_freq));
    }
    explain("time marginal (deciles)", &mut page);
    append_page(&mut page, marginal_table(n, times, &name_times(n, sample_rate, map)));
    freq_heading(&mut page);
    append_page(&mut page, marginal_table(n, freqs, &name_freqs(n, map)));
    page
}

fn freq_heading(page: &mut Page)
    ensures
        final(page)@ == old(page)@ + seq![""@, "frequency marginal (deciles)"@],
{
    let ghost before = page@;
    page.push("".to_owned());
    page.push("frequency marginal (deciles)".to_owned());
    assert(page@ =~= before + seq![""@, "frequency marginal (deciles)"@]);
}

// ---------------------------------------------------------------------------------------------
// the histograms
// ---------------------------------------------------------------------------------------------

/// What is known of the supports once the first `m` quantities were evaluated.
pub open spec fn known_after<C: Calc>(
    calc: &C,
    k: Known,
    sels: Seq<Selection>,
    qs: Seq<Quantity>,
    m: int,
) -> Known
    decreases m,
{
    if m <= 0 {
        k
    } else {
        evaluated_through(
            calc,
            known_after(calc, k, sels, qs, m - 1),
            sels,
            qs[m - 1],
            sels.len() as int,
        ).1
    }
}

/// What is known before anything was evaluated, with supports estimated where speed is asked for.
pub open spec fn fresh(book: Book, fast_support: bool) -> Known {
    Known {
        sample_rate: book.sample_rate,
        initial_energy: book.initial_energy,
        fast_support,
        support: Map::empty(),
    }
}

/// The column quantity `i` of a list is binned from.
pub open spec fn column_of<C: Calc>(
    calc: &C,
    book: Book,
    fast_support: bool,
    qs: Seq<Quantity>,
    i: int,
) -> Result<Seq<Option<Double>>, FofError> {
    let k = known_after(calc, fresh(book, fast_support), book.selections@, qs, i);
    evaluated_through(calc, k, book.selections@, qs[i], book.selections@.len() as int).0
}

/// How a histogram is to be made.
#[derive(Clone, Copy, Debug)]
pub struct Binning {
    pub bins: usize,
    /// Force geometric or linear bins; `None` leaves it to the quantity.
    pub log: Option<bool>,
    /// Restrict the axis.
    pub range: Option<(Double, Double)>,
    pub weight: Weight,
    /// Estimate supports instead of rendering.
    pub fast_support: bool,
}

/// A histogram is that of its quantity, as it was asked for.
pub open spec fn binned_as_asked<C: Calc>(
    calc: &C,
    book: Book,
    qs: Seq<Quantity>,
    b: Binning,
    i: int,
    h: Histogram,
) -> bool {
    &&& column_of(calc, book, b.fast_support, qs, i) is Ok
    &&& is_histogram(
        calc,
        h,
        column_of(calc, book, b.fast_support, qs, i)->Ok_0,
        weights(book.selections@, b.weight),
        qs[i],
        if b.bins >= 1 {
            b.bins
        } else {
            1
        },
        match b.log {
            Some(l) => l,
            None => qs[i].geometric(),
        },
        b.range,
    )
}

/// The histograms of a list of quantities, up to the first that cannot be evaluated.
pub fn cmd_hist<C: Calc>(calc: &C, book: &Book, qs: &[Quantity], b: &Binning) -> (r: (
    Vec<Histogram>,
    Option<FofError>,
))
    requires
        calc.repeatable(),
        b.bins < usize::MAX,
    ensures
        r.0@.len() <= qs@.len(),
        forall|i: int|
            0 <= i < r.0@.len() ==> binned_as_asked(calc, *book, qs@, *b, i, #[trigger] r.0@[i]),
        match r.1 {
            None => r.0@.len() == qs@.len(),
            Some(e) => r.0@.len() < qs@.len() && column_of(
                calc,
                *book,
                b.fast_support,
                qs@,
                r.0@.len() as int,
            ) == Err::<Seq<Option<Double>>, FofError>(e),
        },
{
    let mut ev = Evaluator::new(book.sample_rate, book.initial_energy);
    ev.estimate_supports(b.fast_support);
    assert(ev@ == fresh(*book, b.fast_support));
    let mut out: Vec<Histogram> = Vec::new();
    let mut i: usize = 0;
    while i < qs.len()
        invariant
            calc.repeatable(),
            b.bins < usize::MAX,
            i <= qs@.len(),
            out@.len() == i,
            ev@ == known_after(
                calc,
                fresh(*book, b.fast_support),
                book.selections@,
                qs@,
                i as int,
            ),
            forall|j: int|
                0 <= j < i ==> binned_as_asked(calc, *book, qs@, *b, j, #[trigger] out@[j]),
        decreases qs@.len() - i,
    {
        match histogram(
            calc,
            book.selections.as_slice(),
            &mut ev,
            qs[i],
            b.bins,
            b.log,
            b.range,
            b.weight,
        ) {
            Ok(h) => {
                assert(binned_as_asked(calc, *book, qs@, *b, i as int, h));
                out.push(h);
            },
            Err(e) => {
                return (out, Some(e));
            },
        }
        i += 1;
    }
    (out, None)
}

/// The first `m` histograms as text, set apart by blank lines.
pub open spec fn histograms_lines<N: Notation>(n: &N, hs: Seq<Histogram>, m: int) -> Seq<Seq<char>>
    decreases m,
{
    if m <= 0 {
        seq![]
    } else if m == 1 {
        histogram_lines(n, hs[0])
    } else {
        histograms_lines(n, hs, m - 1).push(""@) + histogram_lines(n, hs[m - 1])
    }
}

/// Histograms as text, set apart by blank lines.
pub fn histograms_text<N: Notation>(n: &N, hs: &Vec<Histogram>) -> (r: Page)
    requires
        n.repeatable(),
        forall|i: int|
            0 <= i < hs@.len() ==> (#[trigger] hs@[i]).edges@.len() == hs@[i].counts@.len() + 1,
    ensures
        r@ == histograms_lines(n, hs@, hs@.len() as int),
{
    let mut page = Page::new();
    let mut i: usize = 0;
    assert(page@ =~= histograms_lines(n, hs@, 0));
    while i < hs.len()
        invariant
            n.repeatable(),
            i <= hs@.len(),
            forall|i: int|
                0 <= i < hs@.len() ==> (#[trigger] hs@[i]).edges@.len() == hs@[i].counts@.len() + 1,
            page@ == histograms_lines(n, hs@, i as int),
        decreases hs@.len() - i,
    {
        assert(hs@[i as int].edges@.len() == hs@[i as int].counts@.len() + 1);
        if i > 0 {
            page.push("".to_owned());
        }
        append_page(&mut page, histogram_text(n, &hs[i]));
        proof {
            if i == 0 {
                lemma_nothing_above(histogram_lines(n, hs@[0]));
            }
        }
        i += 1;
    }
    page
}

} // verus!
