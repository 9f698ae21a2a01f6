//! Statistics as text.

use crate::ieee::Double;
use crate::notation::Notation;
use crate::stats::{Histogram, Summary};
use crate::table::{push_repeated, repeated, texts, Page, Table};
use crate::text::{push_number, written};
use vstd::prelude::*;

verus! {

/// Width the bar column gets in a text histogram.
pub const BAR_WIDTH: usize = 34;

/// The bits of [`BAR_WIDTH`].
pub const BAR_SCALE: u64 = 0x4041_0000_0000_0000;

/// The bits of a hundred.
pub const HUNDRED: u64 = 0x4059_0000_0000_0000;

/// The bits of a thousandth, below which a number is written with an exponent.
pub const SMALLEST: u64 = 0x3f50_624d_d2f1_a9fc;

/// The bits of a hundred thousand, from which a number is written with an exponent.
pub const LARGEST: u64 = 0x40f8_6a00_0000_0000;

/// The bits of a thousand.
pub const THOUSAND: u64 = 0x408f_4000_0000_0000;

/// The bits of ten.
pub const TEN: u64 = 0x4024_0000_0000_0000;

/// The bits of one.
pub const ONE: u64 = 0x3ff0_0000_0000_0000;

/// A number without its sign.
pub open spec fn unsigned(x: Double) -> Double {
    if x.bits >= 0x8000_0000_0000_0000 {
        Double { bits: (x.bits - 0x8000_0000_0000_0000) as u64 }
    } else {
        x
    }
}

pub fn without_sign(x: Double) -> (r: Double)
    ensures
        r == unsigned(x),
{
    if x.bits >= 0x8000_0000_0000_0000 {
        Double { bits: x.bits - 0x8000_0000_0000_0000 }
    } else {
        x
    }
}

/// A number in as few characters as stays readable across the ranges the quantities span.
pub open spec fn short<N: Notation>(n: &N, x: Double) -> Seq<char> {
    let a = unsigned(x);
    if x.equals(Double { bits: 0 }) {
        "0"@
    } else if !x.finite() {
        n.plain_of(x)
    } else if a.less(Double { bits: SMALLEST }) || (Double { bits: LARGEST }).at_most(a) {
        n.exponent_of(x, 3)
    } else if (Double { bits: THOUSAND }).at_most(a) {
        n.fixed_of(x, 0)
    } else if (Double { bits: TEN }).at_most(a) {
        n.fixed_of(x, 1)
    } else if (Double { bits: ONE }).at_most(a) {
        n.fixed_of(x, 2)
    } else {
        n.fixed_of(x, 4)
    }
}

/// A number in as few characters as stays readable across the ranges the quantities span.
pub fn num<N: Notation>(n: &N, x: Double) -> (r: String)
    requires
        n.repeatable(),
    ensures
        r@ == short(n, x),
{
    let a = without_sign(x);
    if x.same(Double { bits: 0 }) {
        "0".to_owned()
    } else if !x.is_finite() {
        n.plain(x)
    } else if a.lt(Double { bits: SMALLEST }) || (Double { bits: LARGEST }).le(a) {
        n.exponent(x, 3)
    } else if (Double { bits: THOUSAND }).le(a) {
        n.fixed(x, 0)
    } else if (Double { bits: TEN }).le(a) {
        n.fixed(x, 1)
    } else if (Double { bits: ONE }).le(a) {
        n.fixed(x, 2)
    } else {
        n.fixed(x, 4)
    }
}

/// The order statistics in one line.
pub open spec fn statistics<N: Notation>(n: &N, s: Summary) -> Seq<char> {
    if s.n == 0 {
        "(no data)"@
    } else {
        "n "@ + written(s.n as int) + "   min "@ + short(n, s.min) + "   p25 "@ + short(n, s.p25)
            + "   median "@ + short(n, s.median) + "   p75 "@ + short(n, s.p75) + "   max "@ + short(
            n,
            s.max,
        ) + "   mean "@ + short(n, s.mean)
    }
}

/// The order statistics in one line.
pub fn summary_text<N: Notation>(n: &N, s: &Summary) -> (r: String)
    requires
        n.repeatable(),
    ensures
        r@ == statistics(n, *s),
{
    if s.n == 0 {
        return "(no data)".to_owned();
    }
    let mut line = "n ".to_owned();
    push_number(&mut line, s.n as u64);
    line.append("   min ");
    line.append(num(n, s.min).as_str());
    line.append("   p25 ");
    line.append(num(n, s.p25).as_str());
    line.append("   median ");
    line.append(num(n, s.median).as_str());
    line.append("   p75 ");
    line.append(num(n, s.p75).as_str());
    line.append("   max ");
    line.append(num(n, s.max).as_str());
    line.append("   mean ");
    line.append(num(n, s.mean).as_str());
    line
}

/// The order statistics in one line, indented.
pub open spec fn statistics_line<N: Notation>(n: &N, s: Summary) -> Seq<char> {
    "  "@ + statistics(n, s)
}

/// The order statistics in one line, indented.
pub fn summary_line<N: Notation>(n: &N, s: &Summary) -> (r: String)
    requires
        n.repeatable(),
    ensures
        r@ == statistics_line(n, *s),
{
    let mut line = "  ".to_owned();
    line.append(summary_text(n, s).as_str());
    line
}

/// `100 part / whole`, in two steps.
pub open spec fn percent_of<N: Notation>(n: &N, part: Double, whole: Double) -> Double {
    n.over_of(n.times_of(Double { bits: HUNDRED }, part), whole)
}

/// A share of a total in percent, to a tenth; none of nothing.
pub open spec fn share<N: Notation>(n: &N, part: Double, whole: Double) -> Seq<char> {
    n.fixed_of(
        if whole.positive() {
            percent_of(n, part, whole)
        } else {
            Double { bits: 0 }
        },
        1,
    )
}

/// A share of a total in percent, to a tenth; none of nothing.
pub fn share_text<N: Notation>(n: &N, part: Double, whole: Double) -> (r: String)
    requires
        n.repeatable(),
    ensures
        r@ == share(n, part, whole),
{
    let x = if whole.is_positive() {
        n.over(n.times(Double { bits: HUNDRED }, part), whole)
    } else {
        Double { bits: 0 }
    };
    n.fixed(x, 1)
}

/// The largest of the first `k` counts, and zero when there are none.
pub open spec fn peak_of(counts: Seq<Double>, k: int) -> Double
    decreases k,
{
    if k <= 0 {
        Double { bits: 0 }
    } else {
        peak_of(counts, k - 1).larger(counts[k - 1])
    }
}

impl Histogram {
    /// The largest count.
    pub fn peak(&self) -> (r: Double)
        ensures
            r == peak_of(self.counts@, self.counts@.len() as int),
    {
        let mut most = Double { bits: 0 };
        let mut i: usize = 0;
        while i < self.counts.len()
            invariant
                i <= self.counts@.len(),
                most == peak_of(self.counts@, i as int),
            decreases self.counts@.len() - i,
        {
            most = most.max(self.counts[i]);
            i += 1;
        }
        most
    }
}

/// The marks in a bin's bar: its share of the tallest, blank where there is none.
pub open spec fn bar<N: Notation>(n: &N, count: Double, peak: Double) -> int {
    if peak.positive() {
        n.nearest_of(n.times_of(n.over_of(count, peak), Double { bits: BAR_SCALE })) as int
    } else {
        0
    }
}

/// One bin's row.
pub open spec fn bin_cells<N: Notation>(n: &N, h: Histogram, i: int) -> Seq<Seq<char>> {
    let c = h.counts@[i];
    seq![
        short(n, h.edges@[i]),
        short(n, h.edges@[i + 1]),
        short(n, c),
        share(n, c, h.total),
        repeated('#', bar(n, c, peak_of(h.counts@, h.counts@.len() as int))),
    ]
}

/// An amount's line, where there is any.
pub open spec fn worth<N: Notation>(n: &N, label: Seq<char>, v: Double, total: Double) -> Seq<Seq<char>> {
    if v.positive() {
        seq!["  "@ + label + ": "@ + short(n, v) + " ("@ + n.fixed_of(percent_of(n, v, total), 1) + "%)"@]
    } else {
        seq![]
    }
}

fn note_mass<N: Notation>(n: &N, label: &str, v: Double, total: Double, page: &mut Page)
    requires
        n.repeatable(),
    ensures
        final(page)@ == old(page)@ + worth(n, label@, v, total),
{
    let ghost before = page@;
    if v.is_positive() {
        let mut line = "  ".to_owned();
        line.append(label);
        line.append(": ");
        line.append(num(n, v).as_str());
        line.append(" (");
        line.append(n.fixed(n.over(n.times(Double { bits: HUNDRED }, v), total), 1).as_str());
        line.append("%)");
        page.push(line);
    }
    assert(page@ =~= before + worth(n, label@, v, total));
}

/// The table of a histogram's bins.
pub open spec fn bin_table<N: Notation>(n: &N, h: Histogram) -> crate::table::Contents {
    crate::table::Contents {
        headers: seq!["from"@, "to"@, "weight"@, "%"@, "bar"@],
        rows: Seq::new(h.counts@.len(), |i: int| bin_cells(n, h, i)),
        left: seq![4usize],
    }
}

/// A histogram as a table of bins with a bar column.
///
/// Mass off the ends is reported rather than folded into the end bins, so the axis never lies about
/// what it covers. Atoms the quantity does not describe are outside the total altogether, so they are
/// stated as an amount rather than a share of it.
pub open spec fn histogram_lines<N: Notation>(n: &N, h: Histogram) -> Seq<Seq<char>> {
    seq![
        h.quantity.heading() + (if h.log {
            "  [log]"@
        } else {
            ""@
        }),
        statistics_line(n, h.stats),
    ] + crate::table::laid_out(bin_table(n, h), "  "@) + worth(n, "below range"@, h.below, h.total)
        + worth(n, "above range"@, h.above, h.total) + worth(n, "not finite"@, h.skipped, h.total) + (
    if h.inapplicable.positive() {
        seq![
            "  other atom kinds: "@ + short(n, h.inapplicable)
                + " (not described by this quantity, not in the total)"@,
        ]
    } else {
        seq![]
    })
}

/// A histogram as a table of bins with a bar column.
pub fn histogram_text<N: Notation>(n: &N, h: &Histogram) -> (r: Page)
    requires
        n.repeatable(),
        h.edges@.len() == h.counts@.len() + 1,
    ensures
        r@ == histogram_lines(n, *h),
{
    let mut page = Page::new();
    let mut title = h.quantity.label().to_owned();
    title.append(if h.log {
        "  [log]"
    } else {
        ""
    });
    page.push(title);
    page.push(summary_line(n, &h.stats));
    let peak = h.peak();
    let heads: [&str; 5] = ["from", "to", "weight", "%", "bar"];
    let mut t = Table::new(heads.as_slice()).left_align([4usize].as_slice());
    let ghost want = bin_table(n, *h);
    assert(t@.headers =~= want.headers);
    assert(t@.left =~= want.left);
    assert(t@.rows =~= want.rows.take(0));
    let mut i: usize = 0;
    while i < h.counts.len()
        invariant
            n.repeatable(),
            i <= h.counts@.len(),
            h.edges@.len() == h.counts@.len() + 1,
            peak == peak_of(h.counts@, h.counts@.len() as int),
            want == bin_table(n, *h),
            t@.headers == want.headers,
            t@.left == want.left,
            t@.rows == want.rows.take(i as int),
        decreases h.counts@.len() - i,
    {
        let c = h.counts[i];
        let marks: usize = if peak.is_positive() {
            n.nearest(n.times(n.over(c, peak), Double { bits: BAR_SCALE }))
        } else {
            0
        };
        let mut drawn = "".to_owned();
        push_repeated(&mut drawn, '#', marks);
        let mut cells: Vec<String> = Vec::new();
        cells.push(num(n, h.edges[i]));
        cells.push(num(n, h.edges[i + 1]));
        cells.push(num(n, c));
        cells.push(share_text(n, c, h.total));
        proof {
            reveal_strlit("");
            assert(drawn@ =~= repeated('#', bar(n, c, peak)));
        }
        cells.push(drawn);
        assert(texts(cells@) =~= bin_cells(n, *h, i as int));
        t.row(cells);
        assert(want.rows.take(i + 1) =~= want.rows.take(i as int).push(bin_cells(n, *h, i as int)));
        i += 1;
    }
    assert(want.rows.take(want.rows.len() as int) =~= want.rows);
    assert(t@ == want);
    let bins = t.render("  ");
    append_page(&mut page, bins);
    note_mass(n, "below range", h.below, h.total, &mut page);
    note_mass(n, "above range", h.above, h.total, &mut page);
    note_mass(n, "not finite", h.skipped, h.total, &mut page);
    if h.inapplicable.is_positive() {
        let mut line = "  other atom kinds: ".to_owned();
        line.append(num(n, h.inapplicable).as_str());
        line.append(" (not described by this quantity, not in the total)");
        page.push(line);
    }
    assert(page@ =~= histogram_lines(n, *h));
    page
}

/// Put one page below another.
pub fn append_page(page: &mut Page, more: Page)
    ensures
        final(page)@ == old(page)@ + more@,
{
    let ghost before = page@;
    let mut lines = more.lines;
    let ghost added = texts(lines@);
    page.lines.append(&mut lines);
    assert(page@ =~= before + added);
}

} // verus!
