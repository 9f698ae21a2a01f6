//! What `rmpstruct` prints of a structural analysis: its diagnostics, and the partials it found.

use crate::display::{percent_of, HUNDRED};
use crate::ieee::Double;
use crate::notation::Notation;
use crate::table::{padded, push_padded, Page};
use crate::text::{push_number, written};
use vstd::prelude::*;

verus! {

/// Atoms a structural analysis left out, by reason.
#[derive(Clone, Copy, Debug, PartialEq, Eq, Structural)]
pub struct Skipped {
    pub no_energy: usize,
    pub bad_frequency: usize,
    pub bad_shape: usize,
}

impl Skipped {
    pub open spec fn sum(self) -> int {
        self.no_energy + self.bad_frequency + self.bad_shape
    }

    /// All of them.
    pub fn total(&self) -> (r: usize)
        requires
            self.sum() <= usize::MAX,
        ensures
            r == self.sum(),
    {
        self.no_energy + self.bad_frequency + self.bad_shape
    }
}

/// What a structural analysis did with a book's atoms.
#[derive(Clone, Copy, Debug, PartialEq, Eq, Structural)]
pub struct PartialDiagnostics {
    pub input_atoms: usize,
    pub observations: usize,
    pub skipped: Skipped,
    pub outside_grid: usize,
    pub frames: usize,
    pub bins: usize,
    pub peaks: usize,
    pub candidate_ridges: usize,
    pub rejected_short: usize,
    pub rejected_sparse: usize,
    pub accepted_partials: usize,
    pub supporting_atoms: usize,
    pub unsupported_atoms: usize,
}

/// A share of the observations in percent, to a tenth.
pub open spec fn observed<N: Notation>(n: &N, part: usize, observations: usize) -> Seq<char> {
    n.fixed_of(
        percent_of(
            n,
            n.count_of(part),
            n.count_of(
                if observations > 1 {
                    observations
                } else {
                    1
                },
            ),
        ),
        1,
    )
}

fn observed_text<N: Notation>(n: &N, part: usize, observations: usize) -> (r: String)
    requires
        n.repeatable(),
    ensures
        r@ == observed(n, part, observations),
{
    let whole: usize = if observations > 1 {
        observations
    } else {
        1
    };
    n.fixed(n.over(n.times(Double { bits: HUNDRED }, n.count(part)), n.count(whole)), 1)
}

/// What became of the atoms.
pub open spec fn atoms_lines(d: PartialDiagnostics) -> Seq<Seq<char>> {
    seq![
        "input atoms      "@ + written(d.input_atoms as int),
        "observations     "@ + written(d.observations as int),
    ] + (if d.skipped.sum() > 0 {
        seq![
            "skipped          "@ + written(d.skipped.sum()) + " (no energy "@
                + written(d.skipped.no_energy as int) + ", bad frequency "@
                + written(d.skipped.bad_frequency as int) + ", bad shape "@
                + written(d.skipped.bad_shape as int) + ")"@,
        ]
    } else {
        seq![]
    }) + (if d.outside_grid > 0 {
        seq![
            "outside grid     "@ + written(d.outside_grid as int),
        ]
    } else {
        seq![]
    })
}

/// Appends [`atoms_lines`].
fn atoms(d: &PartialDiagnostics, page: &mut Page)
    requires
        d.skipped.sum() <= usize::MAX,
    ensures
        final(page)@ == old(page)@ + atoms_lines(*d),
{
    let ghost before = page@;
    let mut line = "input atoms      ".to_owned();
    push_number(&mut line, d.input_atoms as u64);
    page.push(line);
    let mut line = "observations     ".to_owned();
    push_number(&mut line, d.observations as u64);
    page.push(line);
    if d.skipped.total() > 0 {
        let mut line = "skipped          ".to_owned();
        push_number(&mut line, d.skipped.total() as u64);
        line.append(" (no energy ");
        push_number(&mut line, d.skipped.no_energy as u64);
        line.append(", bad frequency ");
        push_number(&mut line, d.skipped.bad_frequency as u64);
        line.append(", bad shape ");
        push_number(&mut line, d.skipped.bad_shape as u64);
        line.append(")");
        page.push(line);
    }
    if d.outside_grid > 0 {
        let mut line = "outside grid     ".to_owned();
        push_number(&mut line, d.outside_grid as u64);
        page.push(line);
    }
    assert(page@ =~= before + atoms_lines(*d));
}

/// What became of the ridges.
pub open spec fn ridges_lines<N: Notation>(n: &N, d: PartialDiagnostics) -> Seq<Seq<char>> {
    seq![
        "grid             "@ + written(d.frames as int) + " frames x "@ + written(d.bins as int)
            + " bins, "@ + written(d.peaks as int) + " peaks"@,
        "candidate ridges "@ + written(d.candidate_ridges as int),
        "  rejected short "@ + written(d.rejected_short as int),
        "  rejected sparse "@ + written(d.rejected_sparse as int),
        "partials         "@ + written(d.accepted_partials as int),
        "supporting atoms "@ + written(d.supporting_atoms as int) + " ("@ + observed(n,
            d.supporting_atoms, d.observations) + "%), unsupported "@
            + written(d.unsupported_atoms as int) + " ("@ + observed(n, d.unsupported_atoms,
            d.observations) + "%)"@,
    ]
}

/// Appends [`ridges_lines`].
fn ridges<N: Notation>(n: &N, d: &PartialDiagnostics, page: &mut Page)
    requires
        n.repeatable(),
    ensures
        final(page)@ == old(page)@ + ridges_lines(n, *d),
{
    let ghost before = page@;
    let mut line = "grid             ".to_owned();
    push_number(&mut line, d.frames as u64);
    line.append(" frames x ");
    push_number(&mut line, d.bins as u64);
    line.append(" bins, ");
    push_number(&mut line, d.peaks as u64);
    line.append(" peaks");
    page.push(line);
    let mut line = "candidate ridges ".to_owned();
    push_number(&mut line, d.candidate_ridges as u64);
    page.push(line);
    let mut line = "  rejected short ".to_owned();
    push_number(&mut line, d.rejected_short as u64);
    page.push(line);
    let mut line = "  rejected sparse ".to_owned();
    push_number(&mut line, d.rejected_sparse as u64);
    page.push(line);
    let mut line = "partials         ".to_owned();
    push_number(&mut line, d.accepted_partials as u64);
    page.push(line);
    let mut line = "supporting atoms ".to_owned();
    push_number(&mut line, d.supporting_atoms as u64);
    line.append(" (");
    line.append(observed_text(n, d.supporting_atoms, d.observations).as_str());
    line.append("%), unsupported ");
    push_number(&mut line, d.unsupported_atoms as u64);
    line.append(" (");
    line.append(observed_text(n, d.unsupported_atoms, d.observations).as_str());
    line.append("%)");
    page.push(line);
    assert(page@ =~= before + ridges_lines(n, *d));
}

/// A structural analysis's diagnostics as text.
pub open spec fn diagnostics_lines<N: Notation>(n: &N, d: PartialDiagnostics) -> Seq<Seq<char>> {
    atoms_lines(d) + ridges_lines(n, d)
}

/// A structural analysis's diagnostics as text.
pub fn print_diagnostics<N: Notation>(n: &N, d: &PartialDiagnostics) -> (r: Page)
    requires
        n.repeatable(),
        d.skipped.sum() <= usize::MAX,
    ensures
        r@ == diagnostics_lines(n, *d),
{
    let mut page = Page::new();
    atoms(d, &mut page);
    assert(page@ =~= atoms_lines(*d));
    ridges(n, d, &mut page);
    page
}

/// Where a partial book came from.
pub struct Provenance {
    pub format_version: u32,
    pub version: String,
    pub rmp_version: String,
    pub source_book: Option<String>,
    pub sample_rate: Double,
}

/// Where a partial book came from, as text.
pub open spec fn provenance_lines<N: Notation>(n: &N, p: Provenance,
    partials: usize) -> Seq<Seq<char>> {
    seq![
        "partial book v"@ + written(p.format_version as int) + "  rmp-structure "@ + p.version@
            + "  rmp "@ + p.rmp_version@,
    ] + (match p.source_book {
        Some(src) => seq!["source book      "@ + src@],
        None => seq![],
    }) + seq![
        "sample rate      "@ + n.plain_of(p.sample_rate) + " Hz"@,
        "partials         "@ + written(partials as int),
    ]
}

/// Where a partial book came from, as text.
pub fn print_provenance<N: Notation>(n: &N, p: &Provenance, partials: usize) -> (r: Page)
    requires
        n.repeatable(),
    ensures
        r@ == provenance_lines(n, *p, partials),
{
    let mut page = Page::new();
    let mut line = "partial book v".to_owned();
    push_number(&mut line, p.format_version as u64);
    line.append("  rmp-structure ");
    line.append(p.version.as_str());
    line.append("  rmp ");
    line.append(p.rmp_version.as_str());
    page.push(line);
    if let Some(src) = &p.source_book {
        let mut line = "source book      ".to_owned();
        line.append(src.as_str());
        page.push(line);
    }
    let mut line = "sample rate      ".to_owned();
    line.append(n.plain(p.sample_rate).as_str());
    line.append(" Hz");
    page.push(line);
    let mut line = "partials         ".to_owned();
    push_number(&mut line, partials as u64);
    page.push(line);
    assert(page@ =~= provenance_lines(n, *p, partials));
    page
}

/// A persistent partial, as it is listed.
#[derive(Clone, Copy, Debug, PartialEq, Eq, Structural)]
pub struct Partial {
    pub id: u64,
    pub start_samples: i64,
    pub duration_samples: i64,
    pub geometric_mean_frequency_hz: Double,
    pub frequency_std_cents: Double,
    pub persistence: Double,
    pub normalized_energy: Double,
    pub significance: Double,
    pub points: usize,
    pub supporting_atoms: usize,
}

fn decimal(k: u64) -> (r: String)
    ensures
        r@ == written(k as int),
{
    let mut text = String::new();
    push_number(&mut text, k);
    assert(text@ =~= written(k as int));
    text
}

/// One partial's line.
pub open spec fn partial_line<N: Notation>(n: &N, p: Partial, sample_rate: Double) -> Seq<char> {
    padded(written(p.id as int), 5, false) + " "@ + padded(
        n.fixed_of(n.over_of(n.position_of(p.start_samples as i128), sample_rate), 3),
        8,
        false,
    ) + " "@ + padded(
        n.fixed_of(n.over_of(n.position_of(p.duration_samples as i128), sample_rate), 3),
        8,
        false,
    ) + " "@ + padded(n.fixed_of(p.geometric_mean_frequency_hz, 2), 10, false) + " "@ + padded(
        n.fixed_of(p.frequency_std_cents, 1),
        7,
        false,
    ) + " "@ + padded(n.fixed_of(p.persistence, 2), 7, false) + " "@ + padded(
        n.fixed_of(n.times_of(Double { bits: HUNDRED }, p.normalized_energy), 3),
        8,
        false,
    ) + " "@ + padded(n.exponent_of(p.significance, 2), 9, false) + " "@ + padded(
        written(p.points as int),
        5,
        false,
    ) + " "@ + padded(written(p.supporting_atoms as int), 5, false)
}

/// One partial's line.
fn partial_text<N: Notation>(n: &N, p: &Partial, sample_rate: Double) -> (r: String)
    requires
        n.repeatable(),
    ensures
        r@ == partial_line(n, *p, sample_rate),
{
    let mut line = String::new();
    push_padded(&mut line, decimal(p.id).as_str(), 5, false);
    line.append(" ");
    let start = n.over(n.position(p.start_samples as i128), sample_rate);
    push_padded(&mut line, n.fixed(start, 3).as_str(), 8, false);
    line.append(" ");
    let duration = n.over(n.position(p.duration_samples as i128), sample_rate);
    push_padded(&mut line, n.fixed(duration, 3).as_str(), 8, false);
    line.append(" ");
    push_padded(&mut line, n.fixed(p.geometric_mean_frequency_hz, 2).as_str(), 10, false);
    line.append(" ");
    push_padded(&mut line, n.fixed(p.frequency_std_cents, 1).as_str(), 7, false);
    line.append(" ");
    push_padded(&mut line, n.fixed(p.persistence, 2).as_str(), 7, false);
    line.append(" ");
    let energy = n.times(Double { bits: HUNDRED }, p.normalized_energy);
    push_padded(&mut line, n.fixed(energy, 3).as_str(), 8, false);
    line.append(" ");
    push_padded(&mut line, n.exponent(p.significance, 2).as_str(), 9, false);
    line.append(" ");
    push_padded(&mut line, decimal(p.points as u64).as_str(), 5, false);
    line.append(" ");
    push_padded(&mut line, decimal(p.supporting_atoms as u64).as_str(), 5, false);
    assert(line@ =~= partial_line(n, *p, sample_rate));
    line
}

/// The first of a list of partials as text, under a heading.
pub open spec fn partials_lines<N: Notation>(
    n: &N,
    ps: Seq<Partial>,
    sample_rate: Double,
    count: int,
) -> Seq<Seq<char>> {
    seq![
        ""@,
        "   id  start s    dur s       f Hz   std c persist  energy%    signif   pts atoms"@,
    ] + Seq::new(
        (if count < ps.len() {
            count as nat
        } else {
            ps.len()
        }),
        |i: int| partial_line(n, ps[i], sample_rate),
    )
}

/// The first of a list of partials as text, under a heading.
pub fn print_partials<N: Notation>(
    n: &N,
    ps: &[Partial],
    sample_rate: Double,
    count: usize,
) -> (r: Page)
    requires
        n.repeatable(),
    ensures
        r@ == partials_lines(n, ps@, sample_rate, count as int),
{
    let mut page = Page::new();
    page.push("".to_owned());
    page.push(
        "   id  start s    dur s       f Hz   std c persist  energy%    signif   pts atoms".to_owned(),
    );
    let shown: usize = if count < ps.len() {
        count
    } else {
        ps.len()
    };
    let ghost want = partials_lines(n, ps@, sample_rate, count as int);
    assert(page@ =~= want.take(2));
    let mut i: usize = 0;
    while i < shown
        invariant
            n.repeatable(),
            i <= shown,
            shown <= ps@.len(),
            want == partials_lines(n, ps@, sample_rate, count as int),
            want.len() == shown + 2,
            page@ == want.take(i + 2),
        decreases shown - i,
    {
        page.push(partial_text(n, &ps[i], sample_rate));
        assert(want[i + 2] == partial_line(n, ps@[i as int], sample_rate));
        assert(want.take(i + 3) =~= want.take(i + 2).push(want[i + 2]));
        i += 1;
    }
    assert(want.take(want.len() as int) =~= want);
    page
}

} // verus!
