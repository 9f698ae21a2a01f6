//! Statistics over a decomposition book.
//!
//! Aggregation only: nothing here renders. Two things about a book are easy to get wrong.
//!
//! **`block`, `onset` and `bin` are the *seed*, not the atom.** They record the grid point the
//! candidate stage proposed, before refinement moved it.
//!
//! **Most shape quantities belong to one atom kind.** `alpha`, `beta`, `alpha*beta`, `fade_dur` and
//! `rho` describe a FOF and `sigma` a Gaussian. An atom a quantity does not describe is counted as
//! inapplicable rather than given an invented value.

use crate::atom::{AtomKind, EnvelopeParams, Shape};
use crate::book::{count_where, energy_left, lemma_count_bound, needed, seeded_in, Book};
use crate::cache::{code, code_of};
use crate::calc::{Axis, Calc, Figures, Term};
use crate::command::{lemma_a_name_asks_for_its_quantity, short_name};
use crate::dict::{Block, Dictionary, FofError};
use crate::golden::{held_to_range, hold_to_range};
use crate::ieee::{Double, Single, INFINITY, NEG_INFINITY, ONE};
use crate::pursuit::Selection;
use crate::reals::Reals;
use crate::text::{chars_of, is_text};
use std::collections::HashMap;
use crate::rounding::{
    close, gives, is_log, is_logarithm, lemma_a_thousand, lemma_above, lemma_circle_constants,
    lemma_close_looser, lemma_close_sign, lemma_close_through, lemma_close_to_itself, lemma_counts,
    lemma_in_order_single, lemma_nothing_single, lemma_over, lemma_small_numbers, lemma_times,
    moderate, ordinary, rounds, takes_log10s, tame,
};
use vstd::prelude::*;
use vstd::relations::{sorted_by, total_ordering};

verus! {

// ---------------------------------------------------------------------------------------------
// order statistics
// ---------------------------------------------------------------------------------------------

/// Order statistics of a sample, for the columns a text report prints beside a histogram.
#[derive(Clone, Copy, Debug, PartialEq, Eq, Structural)]
pub struct Summary {
    pub n: usize,
    pub min: Double,
    pub p5: Double,
    pub p25: Double,
    pub median: Double,
    pub p75: Double,
    pub p95: Double,
    pub max: Double,
    pub mean: Double,
}

/// The total order, which a NaN cannot make inconsistent.
pub open spec fn in_total_order(a: Double, b: Double) -> bool {
    a.total() <= b.total()
}

/// A sample in the total order.
pub open spec fn sorted(xs: Seq<Double>) -> Seq<Double> {
    xs.sort_by(|a: Double, b: Double| in_total_order(a, b))
}

/// The place of the `p`th percentile among `n`: the nearest rank, so every reported value is one that
/// actually occurs.
pub open spec fn rank(n: int, p: int) -> int {
    let i = (p * n + 99) / 100;
    if i < 1 {
        0
    } else if i > n {
        n - 1
    } else {
        i - 1
    }
}

/// The order statistics of a sample, zeros for an empty one.
pub open spec fn summary<C: Calc>(calc: &C, xs: Seq<Double>) -> Summary {
    let n = xs.len() as int;
    let v = sorted(xs);
    if n == 0 {
        Summary {
            n: 0,
            min: Double { bits: 0 },
            p5: Double { bits: 0 },
            p25: Double { bits: 0 },
            median: Double { bits: 0 },
            p75: Double { bits: 0 },
            p95: Double { bits: 0 },
            max: Double { bits: 0 },
            mean: Double { bits: 0 },
        }
    } else {
        Summary {
            n: n as usize,
            min: v[0],
            p5: v[rank(n, 5)],
            p25: v[rank(n, 25)],
            median: v[rank(n, 50)],
            p75: v[rank(n, 75)],
            p95: v[rank(n, 95)],
            max: v[n - 1],
            mean: calc.mean_of(v),
        }
    }
}

/// Sort by the total order.
///
/// `slice::sort_by_key`: afterwards the slice holds the same elements, in ascending order of their
/// keys.
#[verifier::external_body]
fn sort_by_total(v: &mut Vec<Double>)
    ensures
        final(v)@.to_multiset() == old(v)@.to_multiset(),
        forall|i: int, j: int|
            0 <= i < j < final(v)@.len() ==> (#[trigger] final(v)@[i]).total() <= (
            #[trigger] final(v)@[j]).total(),
{
    v.sort_by_key(|d| d.total_key());
}

proof fn lemma_total_ordering()
    ensures
        total_ordering(|a: Double, b: Double| in_total_order(a, b)),
{
    let leq = |a: Double, b: Double| in_total_order(a, b);
    assert forall|a: Double, b: Double| #[trigger] leq(a, b) && #[trigger] leq(b, a) implies a
        == b by {
        crate::ieee::law_total_order_separates(a, b);
    }
}

/// A sorted rearrangement is the sorted sample.
proof fn lemma_sorted(xs: Seq<Double>, v: Seq<Double>)
    requires
        v.to_multiset() == xs.to_multiset(),
        forall|i: int, j: int|
            0 <= i < j < v.len() ==> (#[trigger] v[i]).total() <= (#[trigger] v[j]).total(),
    ensures
        v == sorted(xs),
        v.len() == xs.len(),
{
    let leq = |a: Double, b: Double| in_total_order(a, b);
    lemma_total_ordering();
    xs.lemma_sort_by_ensures(leq);
    assert(sorted_by(v, leq));
    vstd::seq_lib::lemma_sorted_unique(v, xs.sort_by(leq), leq);
    xs.to_multiset_ensures();
    v.to_multiset_ensures();
}

fn rank_of(n: usize, p: usize) -> (r: usize)
    requires
        n >= 1,
        1 <= p <= 100,
    ensures
        r == rank(n as int, p as int),
        r < n,
{
    assert(p * n <= 100 * n) by (nonlinear_arith)
        requires
            p <= 100,
    ;
    let i: u128 = (p as u128 * n as u128 + 99) / 100;
    if i < 1 {
        0
    } else if i > n as u128 {
        n - 1
    } else {
        i as usize - 1
    }
}

impl Summary {
    /// Order statistics of `xs`. An empty sample gives all zeros.
    pub fn of<C: Calc>(calc: &C, xs: &[Double]) -> (r: Summary)
        requires
            calc.repeatable(),
        ensures
            r == summary(calc, xs@),
    {
        if xs.len() == 0 {
            return Summary {
                n: 0,
                min: Double { bits: 0 },
                p5: Double { bits: 0 },
                p25: Double { bits: 0 },
                median: Double { bits: 0 },
                p75: Double { bits: 0 },
                p95: Double { bits: 0 },
                max: Double { bits: 0 },
                mean: Double { bits: 0 },
            };
        }
        let mut v: Vec<Double> = Vec::new();
        let mut i: usize = 0;
        while i < xs.len()
            invariant
                i <= xs@.len(),
                v@ == xs@.take(i as int),
            decreases xs@.len() - i,
        {
            v.push(xs[i]);
            assert(xs@.take(i + 1) =~= xs@.take(i as int).push(xs@[i as int]));
            i += 1;
        }
        assert(xs@.take(xs@.len() as int) =~= xs@);
        sort_by_total(&mut v);
        proof {
            lemma_sorted(xs@, v@);
        }
        let n: usize = v.len();
        Summary {
            n,
            min: v[0],
            p5: v[rank_of(n, 5)],
            p25: v[rank_of(n, 25)],
            median: v[rank_of(n, 50)],
            p75: v[rank_of(n, 75)],
            p95: v[rank_of(n, 95)],
            max: v[n - 1],
            mean: calc.mean(v.as_slice()),
        }
    }
}

/// The order statistics are values of the sample, in order: nothing is interpolated.
pub proof fn law_summary_reports_what_occurs<C: Calc>(calc: &C, xs: Seq<Double>)
    requires
        0 < xs.len() <= usize::MAX,
    ensures
        ({
            let s = summary(calc, xs);
            &&& s.n == xs.len()
            &&& xs.contains(s.min) && xs.contains(s.p5) && xs.contains(s.p25) && xs.contains(
                s.median,
            ) && xs.contains(s.p75) && xs.contains(s.p95) && xs.contains(s.max)
            &&& s.min.total() <= s.p5.total() <= s.p25.total() <= s.median.total()
                <= s.p75.total() <= s.p95.total() <= s.max.total()
            &&& forall|i: int|
                0 <= i < xs.len() ==> s.min.total() <= (#[trigger] xs[i]).total() <= s.max.total()
        }),
{
    let leq = |a: Double, b: Double| in_total_order(a, b);
    lemma_total_ordering();
    xs.lemma_sort_by_ensures(leq);
    let v = sorted(xs);
    let n = xs.len() as int;
    xs.to_multiset_ensures();
    v.to_multiset_ensures();
    assert(v.len() == n);
    assert forall|x: Double| v.contains(x) <==> xs.contains(x) by {
        assert(v.to_multiset().count(x) > 0 <==> v.contains(x));
        assert(xs.to_multiset().count(x) > 0 <==> xs.contains(x));
    }
    assert forall|i: int, j: int| 0 <= i <= j < n implies (#[trigger] v[i]).total() <= (
    #[trigger] v[j]).total() by {
        if i < j {
            assert(leq(v[i], v[j]));
        }
    }
    assert(0 <= rank(n, 5) <= rank(n, 25) <= rank(n, 50) <= rank(n, 75) <= rank(n, 95) < n);
    assert(v.contains(v[0]) && v.contains(v[rank(n, 5)]) && v.contains(v[rank(n, 25)])
        && v.contains(v[rank(n, 50)]) && v.contains(v[rank(n, 75)]) && v.contains(v[rank(n, 95)])
        && v.contains(v[n - 1]));
    assert forall|i: int| 0 <= i < n implies v[0].total() <= (#[trigger] xs[i]).total()
        <= v[n - 1].total() by {
        assert(xs.contains(xs[i]));
        let j = choose|j: int| 0 <= j < v.len() && v[j] == xs[i];
        assert(v[0].total() <= v[j].total() && v[j].total() <= v[n - 1].total());
    }
}

// ---------------------------------------------------------------------------------------------
// quantities
// ---------------------------------------------------------------------------------------------

/// A scalar derived from one selection.
#[derive(Clone, Copy, Debug, PartialEq, Eq, Structural, Hash)]
pub enum Quantity {
    /// Decay coefficient, per second.
    Alpha,
    /// The -3 dB bandwidth.
    Bandwidth,
    /// A Gaussian's envelope standard deviation, milliseconds.
    Sigma,
    /// Attack duration, milliseconds.
    Beta,
    /// `alpha * beta`.
    AlphaBeta,
    /// Carrier frequency, Hz.
    Freq,
    /// Amplitude in dBFS.
    AmpDb,
    /// Energy removed in dB relative to the book's initial energy.
    EnergyDb,
    /// Onset, seconds.
    T0,
    /// Support length, milliseconds.
    SupportMs,
    /// Fade-out ramp, milliseconds.
    FadeDurMs,
    /// `f / bandwidth`: the formant's Q.
    Q,
    /// `alpha / (2 * PI * f)`. Near 1 is ill-conditioned.
    Rho,
    /// Carrier cycles spanned by the atom.
    Periods,
    /// The *seed* block index.
    Block,
}

impl Quantity {
    /// Every quantity.
    pub open spec fn every() -> Seq<Quantity> {
        seq![
            Quantity::Alpha,
            Quantity::Bandwidth,
            Quantity::Sigma,
            Quantity::Beta,
            Quantity::AlphaBeta,
            Quantity::Freq,
            Quantity::AmpDb,
            Quantity::EnergyDb,
            Quantity::T0,
            Quantity::SupportMs,
            Quantity::FadeDurMs,
            Quantity::Q,
            Quantity::Rho,
            Quantity::Periods,
            Quantity::Block,
        ]
    }

    /// Every quantity, for a front end that has to offer them all.
    pub fn all() -> (r: [Quantity; 15])
        ensures
            r@ == Quantity::every(),
    {
        let r = [
            Quantity::Alpha,
            Quantity::Bandwidth,
            Quantity::Sigma,
            Quantity::Beta,
            Quantity::AlphaBeta,
            Quantity::Freq,
            Quantity::AmpDb,
            Quantity::EnergyDb,
            Quantity::T0,
            Quantity::SupportMs,
            Quantity::FadeDurMs,
            Quantity::Q,
            Quantity::Rho,
            Quantity::Periods,
            Quantity::Block,
        ];
        assert(r@ =~= Quantity::every());
        r
    }

    pub open spec fn heading(self) -> Seq<char> {
        match self {
            Quantity::Alpha => "alpha (1/s)"@,
            Quantity::Bandwidth => "bandwidth (Hz)"@,
            Quantity::Sigma => "sigma (ms)"@,
            Quantity::Beta => "beta (ms)"@,
            Quantity::AlphaBeta => "alpha*beta"@,
            Quantity::Freq => "f (Hz)"@,
            Quantity::AmpDb => "amp (dBFS)"@,
            Quantity::EnergyDb => "energy (dB re. initial)"@,
            Quantity::T0 => "t0 (s)"@,
            Quantity::SupportMs => "support (ms)"@,
            Quantity::FadeDurMs => "fade_dur (ms)"@,
            Quantity::Q => "Q = f/bandwidth"@,
            Quantity::Rho => "rho = alpha/(2*pi*f)"@,
            Quantity::Periods => "carrier periods"@,
            Quantity::Block => "seed block"@,
        }
    }

    /// The column heading and unit a report should print.
    pub fn label(self) -> (r: &'static str)
        ensures
            r@ == self.heading(),
    {
        match self {
            Quantity::Alpha => "alpha (1/s)",
            Quantity::Bandwidth => "bandwidth (Hz)",
            Quantity::Sigma => "sigma (ms)",
            Quantity::Beta => "beta (ms)",
            Quantity::AlphaBeta => "alpha*beta",
            Quantity::Freq => "f (Hz)",
            Quantity::AmpDb => "amp (dBFS)",
            Quantity::EnergyDb => "energy (dB re. initial)",
            Quantity::T0 => "t0 (s)",
            Quantity::SupportMs => "support (ms)",
            Quantity::FadeDurMs => "fade_dur (ms)",
            Quantity::Q => "Q = f/bandwidth",
            Quantity::Rho => "rho = alpha/(2*pi*f)",
            Quantity::Periods => "carrier periods",
            Quantity::Block => "seed block",
        }
    }

    /// A quantity a dictionary steps through geometrically, so that linear bins would leave most of
    /// it in the bottom one.
    pub open spec fn geometric(self) -> bool {
        match self {
            Quantity::Alpha => true,
            Quantity::Bandwidth => true,
            Quantity::Sigma => true,
            Quantity::Beta => true,
            Quantity::AlphaBeta => true,
            Quantity::Freq => true,
            Quantity::SupportMs => true,
            Quantity::Q => true,
            Quantity::Rho => true,
            Quantity::Periods => true,
            _ => false,
        }
    }

    /// Whether a histogram of this quantity defaults to geometric bins.
    pub fn log_by_default(self) -> (r: bool)
        ensures
            r == self.geometric(),
    {
        match self {
            Quantity::Alpha | Quantity::Bandwidth | Quantity::Sigma | Quantity::Beta
            | Quantity::AlphaBeta | Quantity::Freq | Quantity::SupportMs | Quantity::Q
            | Quantity::Rho | Quantity::Periods => true,
            _ => false,
        }
    }
}

/// Every quantity is listed, once.
pub proof fn law_every_quantity_is_listed(q: Quantity)
    ensures
        Quantity::every().contains(q),
        Quantity::every().no_duplicates(),
{
    let all = Quantity::every();
    let at = match q {
        Quantity::Alpha => 0int,
        Quantity::Bandwidth => 1,
        Quantity::Sigma => 2,
        Quantity::Beta => 3,
        Quantity::AlphaBeta => 4,
        Quantity::Freq => 5,
        Quantity::AmpDb => 6,
        Quantity::EnergyDb => 7,
        Quantity::T0 => 8,
        Quantity::SupportMs => 9,
        Quantity::FadeDurMs => 10,
        Quantity::Q => 11,
        Quantity::Rho => 12,
        Quantity::Periods => 13,
        Quantity::Block => 14,
    };
    assert(all[at] == q);
}

/// The lowercase of a character, as Unicode maps it.
pub uninterp spec fn lowercased(c: char) -> Seq<char>;

/// `char::to_lowercase`: the character's lowercase mapping, one character or more. An ASCII capital
/// maps to its small letter, and every other ASCII character to itself.
#[verifier::external_body]
fn lowercase(c: char) -> (r: Vec<char>)
    ensures
        r@ == lowercased(c),
        'A' <= c && c <= 'Z' ==> r@ == seq![((c as u32) + 32) as char],
        (c as u32) < 128 && !('A' <= c && c <= 'Z') ==> r@ == seq![c],
{
    c.to_lowercase().collect()
}

/// How lowercase treats ASCII: a capital maps to its small letter, and every other character to
/// itself.
pub open spec fn ascii_folds(c: char) -> bool {
    &&& 'A' <= c && c <= 'Z' ==> lowercased(c) == seq![((c as u32) + 32) as char]
    &&& (c as u32) < 128 && !('A' <= c && c <= 'Z') ==> lowercased(c) == seq![c]
}

/// A character a quantity's name is read without.
pub open spec fn dropped(c: char) -> bool {
    c == '-' || c == '_' || c == ' '
}

/// The letters of a name a quantity is asked for by: dashes, underscores and spaces aside, in
/// lowercase.
pub open spec fn folded(s: Seq<char>, n: int) -> Seq<char>
    decreases n,
{
    if n <= 0 {
        seq![]
    } else {
        let c = s[n - 1];
        if dropped(c) {
            folded(s, n - 1)
        } else {
            folded(s, n - 1) + lowercased(c)
        }
    }
}

/// The quantity a folded name asks for.
pub open spec fn named(k: Seq<char>) -> Option<Quantity> {
    if k == "alpha"@ {
        Some(Quantity::Alpha)
    } else if k == "bandwidth"@ || k == "bw"@ {
        Some(Quantity::Bandwidth)
    } else if k == "sigma"@ || k == "sigmams"@ {
        Some(Quantity::Sigma)
    } else if k == "beta"@ {
        Some(Quantity::Beta)
    } else if k == "alphabeta"@ || k == "ab"@ {
        Some(Quantity::AlphaBeta)
    } else if k == "f"@ || k == "freq"@ || k == "frequency"@ {
        Some(Quantity::Freq)
    } else if k == "amp"@ || k == "ampdb"@ || k == "amplitude"@ {
        Some(Quantity::AmpDb)
    } else if k == "energy"@ || k == "energydb"@ {
        Some(Quantity::EnergyDb)
    } else if k == "t0"@ || k == "onset"@ || k == "time"@ {
        Some(Quantity::T0)
    } else if k == "support"@ || k == "supportms"@ {
        Some(Quantity::SupportMs)
    } else if k == "fadedur"@ || k == "fadedurms"@ || k == "fade"@ {
        Some(Quantity::FadeDurMs)
    } else if k == "q"@ {
        Some(Quantity::Q)
    } else if k == "rho"@ {
        Some(Quantity::Rho)
    } else if k == "periods"@ {
        Some(Quantity::Periods)
    } else if k == "block"@ {
        Some(Quantity::Block)
    } else {
        None
    }
}

/// The quantity a name asks for, once folded.
pub fn quantity_named(k: &[char]) -> (r: Option<Quantity>)
    ensures
        r == named(k@),
{
    if is_text(k, "alpha") {
        Some(Quantity::Alpha)
    } else if is_text(k, "bandwidth") || is_text(k, "bw") {
        Some(Quantity::Bandwidth)
    } else if is_text(k, "sigma") || is_text(k, "sigmams") {
        Some(Quantity::Sigma)
    } else if is_text(k, "beta") {
        Some(Quantity::Beta)
    } else if is_text(k, "alphabeta") || is_text(k, "ab") {
        Some(Quantity::AlphaBeta)
    } else if is_text(k, "f") || is_text(k, "freq") || is_text(k, "frequency") {
        Some(Quantity::Freq)
    } else if is_text(k, "amp") || is_text(k, "ampdb") || is_text(k, "amplitude") {
        Some(Quantity::AmpDb)
    } else if is_text(k, "energy") || is_text(k, "energydb") {
        Some(Quantity::EnergyDb)
    } else if is_text(k, "t0") || is_text(k, "onset") || is_text(k, "time") {
        Some(Quantity::T0)
    } else if is_text(k, "support") || is_text(k, "supportms") {
        Some(Quantity::SupportMs)
    } else if is_text(k, "fadedur") || is_text(k, "fadedurms") || is_text(k, "fade") {
        Some(Quantity::FadeDurMs)
    } else if is_text(k, "q") {
        Some(Quantity::Q)
    } else if is_text(k, "rho") {
        Some(Quantity::Rho)
    } else if is_text(k, "periods") {
        Some(Quantity::Periods)
    } else if is_text(k, "block") {
        Some(Quantity::Block)
    } else {
        None
    }
}

impl Quantity {
    /// The quantity a list typed by hand names: `alpha-beta`, `alpha_beta` and `alphabeta` alike. Its
    /// file's name names it too.
    pub fn from_str(s: &str) -> (r: Result<Quantity, String>)
        ensures
            match r {
                Ok(q) => named(folded(s@, s@.len() as int)) == Some(q),
                Err(why) => named(folded(s@, s@.len() as int)) is None && why@
                    == "unknown quantity '"@ + s@ + "'"@,
            },
            forall|i: int| 0 <= i < s@.len() && !dropped(s@[i]) ==> ascii_folds(#[trigger] s@[i]),
            forall|q: Quantity| s@ == #[trigger] short_name(q) ==> r == Ok::<Quantity, String>(q),
    {
        let chars = chars_of(s);
        let mut k: Vec<char> = Vec::new();
        let mut i: usize = 0;
        while i < chars.len()
            invariant
                i <= chars@.len(),
                chars@ == s@,
                k@ == folded(s@, i as int),
                forall|j: int| 0 <= j < i && !dropped(s@[j]) ==> ascii_folds(#[trigger] s@[j]),
            decreases chars@.len() - i,
        {
            let c = chars[i];
            if c != '-' && c != '_' && c != ' ' {
                let mut low = lowercase(c);
                k.append(&mut low);
            }
            i += 1;
        }
        proof {
            assert forall|q: Quantity| s@ == #[trigger] short_name(q) implies named(k@) == Some(q) by {
                lemma_a_name_asks_for_its_quantity(q);
            }
        }
        match quantity_named(k.as_slice()) {
            Some(q) => Ok(q),
            None => {
                let mut why = String::new();
                why.append("unknown quantity '");
                why.append(s);
                why.append("'");
                assert(why@ =~= "unknown quantity '"@ + s@ + "'"@);
                Err(why)
            },
        }
    }
}

// ---------------------------------------------------------------------------------------------
// evaluating one
// ---------------------------------------------------------------------------------------------

/// Evaluates a [`Quantity`] over a book, rendering envelopes only when one is actually needed.
pub struct Evaluator {
    sample_rate: Single,
    initial_energy: Double,
    /// Skip the render and use the formula.
    pub fast_support: bool,
    support: HashMap<u128, usize>,
}

/// What an evaluator knows.
pub struct Known {
    pub sample_rate: Single,
    pub initial_energy: Double,
    pub fast_support: bool,
    pub support: Map<u128, usize>,
}

impl View for Evaluator {
    type V = Known;

    closed spec fn view(&self) -> Known {
        Known {
            sample_rate: self.sample_rate,
            initial_energy: self.initial_energy,
            fast_support: self.fast_support,
            support: self.support@,
        }
    }
}

/// A shape's support in samples, and what is known after asking: the formula's when speed is asked
/// for, otherwise one render to a memo code.
pub open spec fn support_for<C: Calc>(calc: &C, k: Known, shape: Shape) -> (
    Result<usize, FofError>,
    Known,
) {
    if k.fast_support {
        (Ok(calc.approx_of(shape)), k)
    } else if k.support.dom().contains(code(shape)) {
        (Ok(k.support[code(shape)]), k)
    } else {
        match calc.render_len_of(shape) {
            Ok(n) => (Ok(n), Known { support: k.support.insert(code(shape), n), ..k }),
            Err(e) => (Err(e), k),
        }
    }
}

/// A quantity of one selection, or nothing when it does not describe the atom's kind; and what is
/// known after asking.
pub open spec fn evaluated<C: Calc>(calc: &C, k: Known, s: Selection, q: Quantity) -> (
    Result<Option<Double>, FofError>,
    Known,
) {
    let f = s.atom.f;
    match q {
        Quantity::Alpha => match s.atom.env {
            Shape::Fof(p) => (Ok(Some(calc.value_of(Term::Number(p.alpha)))), k),
            Shape::Gaussian(_) => (Ok(None), k),
        },
        Quantity::Bandwidth => match s.atom.env {
            Shape::Fof(p) => (Ok(Some(calc.value_of(Term::OverPi(p.alpha)))), k),
            Shape::Gaussian(g) => (Ok(Some(calc.value_of(Term::GaussianWidth(g.sigma)))), k),
        },
        Quantity::Sigma => match s.atom.env {
            Shape::Fof(_) => (Ok(None), k),
            Shape::Gaussian(g) => (Ok(Some(calc.value_of(Term::Milli(g.sigma)))), k),
        },
        Quantity::Beta => match s.atom.env {
            Shape::Fof(p) => (Ok(Some(calc.value_of(Term::Milli(p.beta)))), k),
            Shape::Gaussian(_) => (Ok(None), k),
        },
        Quantity::AlphaBeta => match s.atom.env {
            Shape::Fof(p) => (Ok(Some(calc.value_of(Term::Product(p.alpha, p.beta)))), k),
            Shape::Gaussian(_) => (Ok(None), k),
        },
        Quantity::Freq => (Ok(Some(calc.value_of(Term::Number(f)))), k),
        Quantity::AmpDb => (Ok(Some(calc.value_of(Term::Decibels(s.atom.amp)))), k),
        Quantity::EnergyDb => if k.initial_energy.positive() && s.energy_removed.positive() {
            (
                Ok(
                    Some(
                        calc.value_of(Term::EnergyRatio(s.energy_removed, k.initial_energy)),
                    ),
                ),
                k,
            )
        } else {
            (Ok(Some(Double { bits: NEG_INFINITY })), k)
        },
        Quantity::T0 => (Ok(Some(calc.value_of(Term::Seconds(s.atom.t0, k.sample_rate)))), k),
        Quantity::SupportMs => match support_for(calc, k, s.atom.env) {
            (Ok(n), k2) => (
                Ok(Some(calc.value_of(Term::Milliseconds(n, k.sample_rate)))),
                k2,
            ),
            (Err(e), k2) => (Err(e), k2),
        },
        Quantity::FadeDurMs => match s.atom.env {
            Shape::Fof(p) => (Ok(Some(calc.value_of(Term::Milli(p.fade_dur)))), k),
            Shape::Gaussian(_) => (Ok(None), k),
        },
        Quantity::Q => match s.atom.env {
            Shape::Fof(p) => if p.alpha.above_zero() {
                (Ok(Some(calc.value_of(Term::FofQ(f, p.alpha)))), k)
            } else {
                (Ok(Some(Double { bits: INFINITY })), k)
            },
            Shape::Gaussian(g) => {
                let width = calc.value_of(Term::GaussianWidth(g.sigma));
                if width.positive() {
                    (Ok(Some(calc.value_of(Term::OverWidth(f, width)))), k)
                } else {
                    (Ok(Some(Double { bits: INFINITY })), k)
                }
            },
        },
        Quantity::Rho => match s.atom.env {
            Shape::Fof(p) => if f.above_zero() {
                (Ok(Some(calc.value_of(Term::Rho(p.alpha, f)))), k)
            } else {
                (Ok(Some(Double { bits: INFINITY })), k)
            },
            Shape::Gaussian(_) => (Ok(None), k),
        },
        Quantity::Periods => match support_for(calc, k, s.atom.env) {
            (Ok(n), k2) => (
                Ok(Some(calc.value_of(Term::Cycles(n, f, k.sample_rate)))),
                k2,
            ),
            (Err(e), k2) => (Err(e), k2),
        },
        Quantity::Block => (Ok(Some(calc.value_of(Term::Index(s.block)))), k),
    }
}

/// A quantity over the first `n` selections, and what is known after; stopped by the first that
/// cannot be evaluated.
pub open spec fn evaluated_through<C: Calc>(
    calc: &C,
    k: Known,
    sels: Seq<Selection>,
    q: Quantity,
    n: int,
) -> (Result<Seq<Option<Double>>, FofError>, Known)
    decreases n,
{
    if n <= 0 {
        (Ok(seq![]), k)
    } else {
        match evaluated_through(calc, k, sels, q, n - 1) {
            (Err(e), k2) => (Err(e), k2),
            (Ok(xs), k2) => match evaluated(calc, k2, sels[n - 1], q) {
                (Err(e), k3) => (Err(e), k3),
                (Ok(x), k3) => (Ok(xs.push(x)), k3),
            },
        }
    }
}

/// Once stopped, stopped.
proof fn lemma_stopped<C: Calc>(
    calc: &C,
    k: Known,
    sels: Seq<Selection>,
    q: Quantity,
    m: int,
    n: int,
)
    requires
        0 <= m <= n,
        evaluated_through(calc, k, sels, q, m).0 is Err,
    ensures
        evaluated_through(calc, k, sels, q, n) == evaluated_through(calc, k, sels, q, m),
    decreases n,
{
    if m < n {
        lemma_stopped(calc, k, sels, q, m, n - 1);
    }
}

impl Evaluator {
    pub fn new(sample_rate: Single, initial_energy: Double) -> (r: Evaluator)
        ensures
            r@ == (Known {
                sample_rate,
                initial_energy,
                fast_support: false,
                support: Map::empty(),
            }),
    {
        broadcast use vstd::std_specs::hash::group_hash_axioms;

        let r = Evaluator {
            sample_rate,
            initial_energy,
            fast_support: false,
            support: HashMap::new(),
        };
        assert(r@.support =~= Map::empty());
        r
    }

    /// Choose between rendering a support and the formula.
    pub fn estimate_supports(&mut self, fast: bool)
        ensures
            final(self)@ == (Known { fast_support: fast, ..old(self)@ }),
    {
        self.fast_support = fast;
    }

    /// Support in samples, memoized. Falls back to the formula when speed is asked for.
    pub fn support_len<C: Calc>(&mut self, calc: &C, shape: Shape) -> (r: Result<usize, FofError>)
        requires
            calc.repeatable(),
        ensures
            (r, final(self)@) == support_for(calc, old(self)@, shape),
    {
        broadcast use vstd::std_specs::hash::group_hash_axioms;

        if self.fast_support {
            return Ok(calc.approx(shape));
        }
        let key: u128 = code_of(&shape);
        if let Some(n) = self.support.get(&key) {
            return Ok(*n);
        }
        match calc.render_len(shape) {
            Ok(n) => {
                let ghost before = self@;
                self.support.insert(key, n);
                assert(self@.support =~= before.support.insert(key, n));
                Ok(n)
            },
            Err(e) => Err(e),
        }
    }

    /// `q` evaluated on one selection, or `None` when `q` does not describe this atom's kind.
    pub fn eval<C: Calc>(&mut self, calc: &C, s: &Selection, q: Quantity) -> (r: Result<
        Option<Double>,
        FofError,
    >)
        requires
            calc.repeatable(),
        ensures
            (r, final(self)@) == evaluated(calc, old(self)@, *s, q),
    {
        let f = s.atom.f;
        let fof = s.atom.env.as_fof();
        let gauss = s.atom.env.as_gaussian();
        let term = match q {
            Quantity::Alpha => match fof {
                Some(p) => Term::Number(p.alpha),
                None => {
                    return Ok(None);
                },
            },
            Quantity::Bandwidth => match s.atom.env {
                Shape::Fof(p) => Term::OverPi(p.alpha),
                Shape::Gaussian(g) => Term::GaussianWidth(g.sigma),
            },
            Quantity::Sigma => match gauss {
                Some(g) => Term::Milli(g.sigma),
                None => {
                    return Ok(None);
                },
            },
            Quantity::Beta => match fof {
                Some(p) => Term::Milli(p.beta),
                None => {
                    return Ok(None);
                },
            },
            Quantity::AlphaBeta => match fof {
                Some(p) => Term::Product(p.alpha, p.beta),
                None => {
                    return Ok(None);
                },
            },
            Quantity::Freq => Term::Number(f),
            Quantity::AmpDb => Term::Decibels(s.atom.amp),
            Quantity::EnergyDb => {
                if self.initial_energy.is_positive() && s.energy_removed.is_positive() {
                    Term::EnergyRatio(s.energy_removed, self.initial_energy)
                } else {
                    return Ok(Some(Double { bits: NEG_INFINITY }));
                }
            },
            Quantity::T0 => Term::Seconds(s.atom.t0, self.sample_rate),
            Quantity::SupportMs => match self.support_len(calc, s.atom.env) {
                Ok(n) => Term::Milliseconds(n, self.sample_rate),
                Err(e) => {
                    return Err(e);
                },
            },
            Quantity::FadeDurMs => match fof {
                Some(p) => Term::Milli(p.fade_dur),
                None => {
                    return Ok(None);
                },
            },
            Quantity::Q => match s.atom.env {
                Shape::Fof(p) => {
                    if !p.alpha.is_above_zero() {
                        return Ok(Some(Double { bits: INFINITY }));
                    }
                    Term::FofQ(f, p.alpha)
                },
                Shape::Gaussian(g) => {
                    let width = calc.value(Term::GaussianWidth(g.sigma));
                    if !width.is_positive() {
                        return Ok(Some(Double { bits: INFINITY }));
                    }
                    Term::OverWidth(f, width)
                },
            },
            Quantity::Rho => match fof {
                Some(p) => {
                    if !f.is_above_zero() {
                        return Ok(Some(Double { bits: INFINITY }));
                    }
                    Term::Rho(p.alpha, f)
                },
                None => {
                    return Ok(None);
                },
            },
            Quantity::Periods => match self.support_len(calc, s.atom.env) {
                Ok(n) => Term::Cycles(n, f, self.sample_rate),
                Err(e) => {
                    return Err(e);
                },
            },
            Quantity::Block => Term::Index(s.block),
        };
        Ok(Some(calc.value(term)))
    }

    /// `q` over every selection, in book order. `None` where `q` does not describe the atom.
    pub fn column<C: Calc>(&mut self, calc: &C, sels: &[Selection], q: Quantity) -> (r: Result<
        Vec<Option<Double>>,
        FofError,
    >)
        requires
            calc.repeatable(),
        ensures
            final(self)@ == evaluated_through(calc, old(self)@, sels@, q, sels@.len() as int).1,
            match r {
                Ok(xs) => evaluated_through(calc, old(self)@, sels@, q, sels@.len() as int).0 == Ok::<
                    Seq<Option<Double>>,
                    FofError,
                >(xs@) && xs@.len() == sels@.len(),
                Err(e) => evaluated_through(calc, old(self)@, sels@, q, sels@.len() as int).0
                    == Err::<Seq<Option<Double>>, FofError>(e),
            },
    {
        let ghost k = self@;
        let mut out: Vec<Option<Double>> = Vec::new();
        let mut i: usize = 0;
        while i < sels.len()
            invariant
                calc.repeatable(),
                k == old(self)@,
                i <= sels@.len(),
                out@.len() == i,
                evaluated_through(calc, k, sels@, q, i as int) == (
                    Ok::<Seq<Option<Double>>, FofError>(out@),
                    self@,
                ),
            decreases sels@.len() - i,
        {
            match self.eval(calc, &sels[i], q) {
                Ok(x) => {
                    out.push(x);
                },
                Err(e) => {
                    proof {
                        assert(evaluated_through(calc, k, sels@, q, i + 1) == (
                            Err::<Seq<Option<Double>>, FofError>(e),
                            self@,
                        ));
                        lemma_stopped(calc, k, sels@, q, i + 1, sels@.len() as int);
                    }
                    return Err(e);
                },
            }
            i += 1;
        }
        Ok(out)
    }
}

/// A quantity describes an atom of one kind or of both, and an atom it does not describe has no value
/// of it.
pub open spec fn describes(q: Quantity, kind: AtomKind) -> bool {
    match q {
        Quantity::Alpha => kind is Fof,
        Quantity::Beta => kind is Fof,
        Quantity::AlphaBeta => kind is Fof,
        Quantity::FadeDurMs => kind is Fof,
        Quantity::Rho => kind is Fof,
        Quantity::Sigma => kind is Gaussian,
        _ => true,
    }
}

/// Evaluating a quantity gives a value exactly where it describes the atom's kind, unless a render
/// fails.
pub proof fn law_values_follow_the_kind<C: Calc>(calc: &C, k: Known, s: Selection, q: Quantity)
    ensures
        ({
            let r = evaluated(calc, k, s, q).0;
            r matches Ok(x) ==> (x is Some <==> describes(q, s.atom.env.family()))
        }),
{
}

// ---------------------------------------------------------------------------------------------
// histograms
// ---------------------------------------------------------------------------------------------

/// What each atom contributes to a histogram bin.
#[derive(Clone, Copy, Debug, PartialEq, Eq, Structural)]
pub enum Weight {
    /// One per atom.
    Count,
    /// The energy it removed, so the bars say where the signal's energy went.
    Energy,
}

impl Default for Weight {
    fn default() -> (r: Weight)
        ensures
            r == Weight::Count,
    {
        Weight::Count
    }
}

/// Where an atom falls in a histogram.
#[derive(Clone, Copy, Debug, PartialEq, Eq, Structural)]
pub enum Place {
    /// The quantity does not describe it.
    Inapplicable,
    /// It has no value the axis can show.
    Skipped,
    Below,
    Above,
    Bin(usize),
}

/// A weighted histogram, with the order statistics of the underlying sample.
#[derive(Debug)]
pub struct Histogram {
    pub quantity: Quantity,
    /// Bin edges, ascending, one more than there are bins. Geometric when the histogram is log-binned.
    pub edges: Vec<Double>,
    pub counts: Vec<Double>,
    /// Mass below the first edge and above the last. Kept rather than clamped into the end bins.
    pub below: Double,
    pub above: Double,
    /// Mass that had no value on the axis.
    pub skipped: Double,
    /// Mass from atoms the quantity does not describe. Not part of the total.
    pub inapplicable: Double,
    pub total: Double,
    pub log: bool,
    pub stats: Summary,
}

/// A value a histogram can show.
pub open spec fn shown(x: Double, log: bool) -> bool {
    x.finite() && (!log || x.positive())
}

/// The values of the first `n` that a histogram can show.
pub open spec fn usable(xs: Seq<Option<Double>>, log: bool, n: int) -> Seq<Double>
    decreases n,
{
    if n <= 0 {
        seq![]
    } else {
        match xs[n - 1] {
            Some(x) => if shown(x, log) {
                usable(xs, log, n - 1).push(x)
            } else {
                usable(xs, log, n - 1)
            },
            None => usable(xs, log, n - 1),
        }
    }
}

/// The ends of a histogram's axis: those asked for, or the sample's own, widened where they meet.
pub open spec fn range_for<C: Calc>(
    calc: &C,
    stats: Summary,
    log: bool,
    asked: Option<(Double, Double)>,
) -> (Double, Double) {
    match asked {
        Some(r) => r,
        None => if stats.n == 0 {
            (Double { bits: 0 }, Double { bits: ONE })
        } else if stats.min.equals(stats.max) {
            calc.widen_of(stats.min, stats.max, log)
        } else {
            (stats.min, stats.max)
        },
    }
}

/// Where a value falls, of `bins` bins.
pub open spec fn place_of<C: Calc>(calc: &C, x: Option<Double>, axis: Axis, bins: usize) -> Place {
    match x {
        None => Place::Inapplicable,
        Some(x) => if !shown(x, axis.log) {
            Place::Skipped
        } else if x.less(axis.lo) {
            Place::Below
        } else if axis.hi.less(x) {
            Place::Above
        } else {
            let i = calc.slot_of(x, axis, bins);
            Place::Bin(
                if i < bins {
                    i
                } else {
                    (bins - 1) as usize
                },
            )
        },
    }
}

/// The mass of the first `n` atoms that `holds` picks out, added in book order.
pub open spec fn mass<C: Calc>(
    calc: &C,
    ws: Seq<Double>,
    places: Seq<Place>,
    holds: spec_fn(Place) -> bool,
    n: int,
) -> Double
    decreases n,
{
    if n <= 0 {
        Double { bits: 0 }
    } else if holds(places[n - 1]) {
        calc.plus_of(mass(calc, ws, places, holds, n - 1), ws[n - 1])
    } else {
        mass(calc, ws, places, holds, n - 1)
    }
}

/// What each selection weighs.
pub open spec fn weights(sels: Seq<Selection>, w: Weight) -> Seq<Double> {
    Seq::new(
        sels.len(),
        |i: int|
            match w {
                Weight::Count => Double { bits: ONE },
                Weight::Energy => sels[i].energy_removed,
            },
    )
}

/// A histogram of a column, in terms of where each value falls.
pub open spec fn is_histogram<C: Calc>(
    calc: &C,
    h: Histogram,
    xs: Seq<Option<Double>>,
    ws: Seq<Double>,
    q: Quantity,
    bins: usize,
    log: bool,
    asked: Option<(Double, Double)>,
) -> bool {
    let n = xs.len() as int;
    let (lo, hi) = range_for(calc, h.stats, log, asked);
    let axis = Axis { lo, hi, first_edge: h.edges@[0], last_edge: h.edges@[bins as int], log };
    let places = Seq::new(xs.len(), |i: int| place_of(calc, xs[i], axis, bins));
    &&& h.quantity == q
    &&& h.log == log
    &&& h.stats == summary(calc, usable(xs, log, n))
    &&& h.edges@.len() == bins + 1
    &&& forall|i: int|
        0 <= i <= bins ==> #[trigger] h.edges@[i] == calc.edge_of(lo, hi, log, i as usize, bins)
    &&& h.counts@.len() == bins
    &&& forall|i: int|
        0 <= i < bins ==> #[trigger] h.counts@[i] == mass(
            calc,
            ws,
            places,
            |p: Place| p == Place::Bin(i as usize),
            n,
        )
    &&& h.below == mass(calc, ws, places, |p: Place| p == Place::Below, n)
    &&& h.above == mass(calc, ws, places, |p: Place| p == Place::Above, n)
    &&& h.skipped == mass(calc, ws, places, |p: Place| p == Place::Skipped, n)
    &&& h.inapplicable == mass(calc, ws, places, |p: Place| p == Place::Inapplicable, n)
    &&& h.total == mass(calc, ws, places, |p: Place| p != Place::Inapplicable, n)
}

/// Bin a column of values.
///
/// A log histogram counts non-positive values as skipped, since they have no place on a geometric
/// axis.
pub fn binned<C: Calc>(
    calc: &C,
    xs: &[Option<Double>],
    ws: &[Double],
    q: Quantity,
    bins: usize,
    log: bool,
    range: Option<(Double, Double)>,
) -> (r: Histogram)
    requires
        calc.repeatable(),
        bins >= 1,
        bins < usize::MAX,
        ws@.len() == xs@.len(),
    ensures
        is_histogram(calc, r, xs@, ws@, q, bins, log, range),
{
    let mut shown_values: Vec<Double> = Vec::new();
    let mut i: usize = 0;
    while i < xs.len()
        invariant
            i <= xs@.len(),
            shown_values@ == usable(xs@, log, i as int),
        decreases xs@.len() - i,
    {
        if let Some(x) = xs[i] {
            if x.is_finite() && (!log || x.is_positive()) {
                shown_values.push(x);
            }
        }
        i += 1;
    }
    let stats = Summary::of(calc, shown_values.as_slice());
    let (lo, hi) = match range {
        Some(r) => r,
        None => if stats.n == 0 {
            (Double { bits: 0 }, Double { bits: ONE })
        } else if stats.min.same(stats.max) {
            calc.widen(stats.min, stats.max, log)
        } else {
            (stats.min, stats.max)
        },
    };
    let mut edges: Vec<Double> = Vec::new();
    let mut i: usize = 0;
    while i <= bins
        invariant
            calc.repeatable(),
            i <= bins + 1,
            bins < usize::MAX,
            edges@.len() == i,
            forall|j: int|
                0 <= j < i ==> #[trigger] edges@[j] == calc.edge_of(lo, hi, log, j as usize, bins),
        decreases bins + 1 - i,
    {
        edges.push(calc.edge(lo, hi, log, i, bins));
        i += 1;
    }
    let axis = Axis { lo, hi, first_edge: edges[0], last_edge: edges[bins], log };
    let ghost places = Seq::new(xs@.len(), |i: int| place_of(calc, xs@[i], axis, bins));
    let zero = Double { bits: 0 };
    let mut counts: Vec<Double> = Vec::new();
    let mut i: usize = 0;
    while i < bins
        invariant
            i <= bins,
            zero.bits == 0,
            counts@.len() == i,
            forall|j: int| 0 <= j < i ==> (#[trigger] counts@[j]).bits == 0,
        decreases bins - i,
    {
        counts.push(zero);
        i += 1;
    }
    let mut below = zero;
    let mut above = zero;
    let mut skipped = zero;
    let mut total = zero;
    let mut inapplicable = zero;
    let mut i: usize = 0;
    while i < xs.len()
        invariant
            calc.repeatable(),
            i <= xs@.len(),
            ws@.len() == xs@.len(),
            bins >= 1,
            counts@.len() == bins,
            axis.log == log,
            axis.lo == lo,
            axis.hi == hi,
            places == Seq::new(xs@.len(), |i: int| place_of(calc, xs@[i], axis, bins)),
            forall|j: int|
                0 <= j < bins ==> #[trigger] counts@[j] == mass(
                    calc,
                    ws@,
                    places,
                    |p: Place| p == Place::Bin(j as usize),
                    i as int,
                ),
            below == mass(calc, ws@, places, |p: Place| p == Place::Below, i as int),
            above == mass(calc, ws@, places, |p: Place| p == Place::Above, i as int),
            skipped == mass(calc, ws@, places, |p: Place| p == Place::Skipped, i as int),
            inapplicable == mass(calc, ws@, places, |p: Place| p == Place::Inapplicable, i as int),
            total == mass(calc, ws@, places, |p: Place| p != Place::Inapplicable, i as int),
        decreases xs@.len() - i,
    {
        let w = ws[i];
        let ghost before = counts@;
        let ghost here = places[i as int];
        assert(here == place_of(calc, xs@[i as int], axis, bins));
        match xs[i] {
            None => {
                inapplicable = calc.plus(inapplicable, w);
            },
            Some(x) => {
                total = calc.plus(total, w);
                if !(x.is_finite() && (!log || x.is_positive())) {
                    skipped = calc.plus(skipped, w);
                } else if x.lt(lo) {
                    below = calc.plus(below, w);
                } else if hi.lt(x) {
                    above = calc.plus(above, w);
                } else {
                    let slot: usize = calc.slot(x, axis, bins);
                    let at: usize = if slot < bins {
                        slot
                    } else {
                        bins - 1
                    };
                    let more = calc.plus(counts[at], w);
                    counts.set(at, more);
                    assert(here == Place::Bin(at));
                }
            },
        }
        proof {
            assert forall|j: int| 0 <= j < bins implies #[trigger] counts@[j] == mass(
                calc,
                ws@,
                places,
                |p: Place| p == Place::Bin(j as usize),
                i + 1,
            ) by {
                let holds = |p: Place| p == Place::Bin(j as usize);
                assert(before[j] == mass(calc, ws@, places, holds, i as int));
                assert(holds(here) == (here == Place::Bin(j as usize)));
            }
        }
        i += 1;
    }
    Histogram {
        quantity: q,
        edges,
        counts,
        below,
        above,
        skipped,
        inapplicable,
        total,
        log,
        stats,
    }
}

/// Bin `q` over a book's selections.
///
/// `range` overrides the data's own extent. `log` forces geometric or linear bins; `None` takes
/// [`Quantity::log_by_default`]. There is always at least one bin.
pub fn histogram<C: Calc>(
    calc: &C,
    sels: &[Selection],
    ev: &mut Evaluator,
    q: Quantity,
    bins: usize,
    log: Option<bool>,
    range: Option<(Double, Double)>,
    w: Weight,
) -> (r: Result<Histogram, FofError>)
    requires
        calc.repeatable(),
        bins < usize::MAX,
    ensures
        final(ev)@ == evaluated_through(calc, old(ev)@, sels@, q, sels@.len() as int).1,
        match (evaluated_through(calc, old(ev)@, sels@, q, sels@.len() as int).0, r) {
            (Ok(xs), Ok(h)) => is_histogram(
                calc,
                h,
                xs,
                weights(sels@, w),
                q,
                if bins >= 1 {
                    bins
                } else {
                    1
                },
                match log {
                    Some(l) => l,
                    None => q.geometric(),
                },
                range,
            ),
            (Err(e), Err(f)) => e == f,
            _ => false,
        },
{
    let bins: usize = if bins >= 1 {
        bins
    } else {
        1
    };
    let log = match log {
        Some(l) => l,
        None => q.log_by_default(),
    };
    let xs = match ev.column(calc, sels, q) {
        Ok(xs) => xs,
        Err(e) => {
            return Err(e);
        },
    };
    let mut ws: Vec<Double> = Vec::new();
    let mut i: usize = 0;
    while i < sels.len()
        invariant
            i <= sels@.len(),
            ws@ == weights(sels@, w).take(i as int),
        decreases sels@.len() - i,
    {
        ws.push(
            match w {
                Weight::Count => Double { bits: ONE },
                Weight::Energy => sels[i].energy_removed,
            },
        );
        assert(weights(sels@, w).take(i + 1) =~= weights(sels@, w).take(i as int).push(
            weights(sels@, w)[i as int],
        ));
        i += 1;
    }
    assert(weights(sels@, w).take(sels@.len() as int) =~= weights(sels@, w));
    Ok(binned(calc, xs.as_slice(), ws.as_slice(), q, bins, log, range))
}

/// How many of the first `n` atoms `holds` picks out.
pub open spec fn tally(places: Seq<Place>, holds: spec_fn(Place) -> bool, n: int) -> int
    decreases n,
{
    if n <= 0 {
        0
    } else {
        tally(places, holds, n - 1) + (if holds(places[n - 1]) {
            1int
        } else {
            0
        })
    }
}

/// How many of the first `n` atoms fall in the first `bins` bins.
pub open spec fn tally_bins(places: Seq<Place>, bins: int, n: int) -> int
    decreases bins,
{
    if bins <= 0 {
        0
    } else {
        tally_bins(places, bins - 1, n) + tally(
            places,
            |p: Place| p == Place::Bin((bins - 1) as usize),
            n,
        )
    }
}

/// Every atom falls in exactly one place: those in the bins, below, above, skipped and inapplicable
/// are all of them, whatever the range.
pub proof fn law_histogram_conserves_atoms<C: Calc>(
    calc: &C,
    xs: Seq<Option<Double>>,
    axis: Axis,
    bins: usize,
    places: Seq<Place>,
)
    requires
        bins >= 1,
        places == Seq::new(xs.len(), |i: int| place_of(calc, xs[i], axis, bins)),
    ensures
        tally_bins(places, bins as int, places.len() as int) + tally(
            places,
            |p: Place| p == Place::Below,
            places.len() as int,
        ) + tally(places, |p: Place| p == Place::Above, places.len() as int) + tally(
            places,
            |p: Place| p == Place::Skipped,
            places.len() as int,
        ) + tally(places, |p: Place| p == Place::Inapplicable, places.len() as int) == xs.len(),
{
    assert forall|i: int| 0 <= i < places.len() implies ((#[trigger] places[i]) matches Place::Bin(b)
        ==> b < bins) by {
        assert(places[i] == place_of(calc, xs[i], axis, bins));
    }
    lemma_tally(places, bins as int, places.len() as int);
}

proof fn lemma_tally(places: Seq<Place>, bins: int, n: int)
    requires
        0 <= n <= places.len(),
        0 <= bins <= usize::MAX,
        forall|i: int|
            0 <= i < places.len() ==> ((#[trigger] places[i]) matches Place::Bin(b) ==> b < bins),
    ensures
        tally_bins(places, bins, n) + tally(places, |p: Place| p == Place::Below, n) + tally(
            places,
            |p: Place| p == Place::Above,
            n,
        ) + tally(places, |p: Place| p == Place::Skipped, n) + tally(
            places,
            |p: Place| p == Place::Inapplicable,
            n,
        ) == n,
    decreases n,
{
    if n > 0 {
        lemma_tally(places, bins, n - 1);
        lemma_tally_bins_step(places, bins, n);
    } else {
        lemma_tally_bins_none(places, bins);
    }
}

proof fn lemma_tally_bins_none(places: Seq<Place>, bins: int)
    ensures
        tally_bins(places, bins, 0) == 0,
    decreases bins,
{
    if bins > 0 {
        lemma_tally_bins_none(places, bins - 1);
    }
}

/// One more atom adds to one bin at most.
proof fn lemma_tally_bins_step(places: Seq<Place>, bins: int, n: int)
    requires
        0 < n <= places.len(),
        0 <= bins <= usize::MAX,
    ensures
        tally_bins(places, bins, n) == tally_bins(places, bins, n - 1) + (if places[n
            - 1] matches Place::Bin(b) && b < bins {
            1int
        } else {
            0
        }),
    decreases bins,
{
    if bins > 0 {
        lemma_tally_bins_step(places, bins - 1, n);
    }
}

// ---------------------------------------------------------------------------------------------
// the headline figures
// ---------------------------------------------------------------------------------------------

/// The bits of the ratio below which an atom fell short of its projection.
pub const SHORTFALL: u64 = 0x3fef_ae14_7ae1_47ae;

/// The headline figures for a book.
#[derive(Debug)]
pub struct BookSummary {
    pub atoms: usize,
    pub sample_rate: Single,
    /// Earliest onset and latest sample any atom reaches. An onset is signed, so the first may be
    /// negative.
    pub span: (i64, i64),
    pub initial_energy: Double,
    pub residual_energy: Double,
    pub snr_db: Single,
    /// The atoms needed for each of 10, 20, 30 and 40 dB.
    pub atoms_to_reach: Vec<(Single, Option<usize>)>,
    pub refined_frac: Double,
    /// Atoms whose local-support validation ran.
    pub hrmp_atoms: usize,
    /// Energy removed over energy projected.
    pub removed_over_projected: Summary,
    /// Atoms that fell more than 1% short of their projection.
    pub shortfall_atoms: usize,
    /// How far the two measures of a validated atom's energy differ at most. A consistency check on
    /// the book, and nothing more.
    pub hr_consistency: Double,
    /// The energy the atoms removed over the energy that is gone. Below 1 is ordinary and quantifies
    /// the overlap.
    pub deposited_frac: Double,
    pub energy_removed: Summary,
}

/// The supports of the first `n` selections, and what is known after; stopped by the first that
/// cannot be rendered.
pub open spec fn supports_through<C: Calc>(calc: &C, k: Known, sels: Seq<Selection>, n: int) -> (
    Result<Seq<usize>, FofError>,
    Known,
)
    decreases n,
{
    if n <= 0 {
        (Ok(seq![]), k)
    } else {
        match supports_through(calc, k, sels, n - 1) {
            (Err(e), k2) => (Err(e), k2),
            (Ok(lens), k2) => match support_for(calc, k2, sels[n - 1].atom.env) {
                (Err(e), k3) => (Err(e), k3),
                (Ok(len), k3) => (Ok(lens.push(len)), k3),
            },
        }
    }
}

proof fn lemma_supports_stopped<C: Calc>(
    calc: &C,
    k: Known,
    sels: Seq<Selection>,
    m: int,
    n: int,
)
    requires
        0 <= m <= n,
        supports_through(calc, k, sels, m).0 is Err,
    ensures
        supports_through(calc, k, sels, n) == supports_through(calc, k, sels, m),
    decreases n,
{
    if m < n {
        lemma_supports_stopped(calc, k, sels, m, n - 1);
    }
}

/// One past an atom's last sample.
pub open spec fn end_of(s: Selection, len: usize) -> i64 {
    held_to_range(s.atom.t0 + len)
}

/// The span of the first `n` atoms: nothing at all, or from the earliest onset to the latest end.
pub open spec fn span_of(sels: Seq<Selection>, lens: Seq<usize>, n: int) -> (i64, i64)
    decreases n,
{
    if n <= 0 {
        (0, 0)
    } else {
        let s = sels[n - 1];
        let end = end_of(s, lens[n - 1]);
        if n == 1 {
            (s.atom.t0, end)
        } else {
            let (a, b) = span_of(sels, lens, n - 1);
            (
                if s.atom.t0 < a {
                    s.atom.t0
                } else {
                    a
                },
                if end > b {
                    end
                } else {
                    b
                },
            )
        }
    }
}

/// The fractions of their projections the first `n` atoms removed, where they were projected any.
pub open spec fn ratios<C: Calc>(calc: &C, sels: Seq<Selection>, n: int) -> Seq<Double>
    decreases n,
{
    if n <= 0 {
        seq![]
    } else {
        let s = sels[n - 1];
        if s.projected_energy.positive() {
            ratios(calc, sels, n - 1).push(calc.over_of(s.energy_removed, s.projected_energy))
        } else {
            ratios(calc, sels, n - 1)
        }
    }
}

/// An atom that fell short of its projection.
pub open spec fn fell_short<C: Calc>(calc: &C, s: Selection) -> bool {
    s.projected_energy.positive() && calc.over_of(s.energy_removed, s.projected_energy).less(
        Double { bits: SHORTFALL },
    )
}

pub open spec fn removals(sels: Seq<Selection>) -> Seq<Double> {
    Seq::new(sels.len(), |i: int| sels[i].energy_removed)
}

/// The energy the first `n` atoms removed, added in book order.
pub open spec fn removed_sum<C: Calc>(calc: &C, sels: Seq<Selection>, n: int) -> Double
    decreases n,
{
    if n <= 0 {
        Double { bits: 0 }
    } else {
        calc.plus_of(removed_sum(calc, sels, n - 1), sels[n - 1].energy_removed)
    }
}

/// How far the two measures of a validated atom's energy differ at most, over the first `n`.
pub open spec fn inconsistency<C: Calc>(calc: &C, sels: Seq<Selection>, n: int) -> Double
    decreases n,
{
    if n <= 0 {
        Double { bits: 0 }
    } else {
        let before = inconsistency(calc, sels, n - 1);
        let s = sels[n - 1];
        match s.hr_score {
            Some(hr) => if s.energy_removed.positive() {
                before.larger(calc.gap_of(hr, s.energy_removed))
            } else {
                before
            },
            None => before,
        }
    }
}

/// The targets a summary reports, dB.
pub open spec fn targets() -> Seq<Single> {
    seq![
        Single { bits: 0x4120_0000 },
        Single { bits: 0x41a0_0000 },
        Single { bits: 0x41f0_0000 },
        Single { bits: 0x4220_0000 },
    ]
}

/// The headline figures of a book, given its atoms' supports.
pub open spec fn is_summary<C: Calc>(
    calc: &C,
    r: BookSummary,
    book: Book,
    lens: Seq<usize>,
) -> bool {
    let sels = book.selections@;
    let n = sels.len() as int;
    let left = energy_left(book.initial_energy, sels);
    let captured = calc.minus_of(book.initial_energy, left);
    &&& r.atoms == n
    &&& r.sample_rate == book.sample_rate
    &&& r.span == span_of(sels, lens, n)
    &&& r.initial_energy == book.initial_energy
    &&& r.residual_energy == left
    &&& r.snr_db == calc.snr_of(book.initial_energy, left)
    &&& r.atoms_to_reach@.len() == targets().len()
    &&& forall|i: int|
        0 <= i < targets().len() ==> (#[trigger] r.atoms_to_reach@[i]).0 == targets()[i] && needed(
            calc,
            book.initial_energy,
            sels,
            targets()[i],
            r.atoms_to_reach@[i].1,
        )
    &&& r.refined_frac == (if n == 0 {
        Double { bits: 0 }
    } else {
        calc.fraction_of(
            count_where(sels, |s: Selection| s.refined, n) as usize,
            n as usize,
        )
    })
    &&& r.hrmp_atoms == count_where(sels, |s: Selection| s.hr_score is Some, n)
    &&& r.removed_over_projected == summary(calc, ratios(calc, sels, n))
    &&& r.shortfall_atoms == count_where(sels, |s: Selection| fell_short(calc, s), n)
    &&& r.hr_consistency == inconsistency(calc, sels, n)
    &&& r.deposited_frac == (if captured.positive() {
        calc.over_of(removed_sum(calc, sels, n), captured)
    } else {
        Double { bits: 0 }
    })
    &&& r.energy_removed == summary(calc, removals(sels))
}

/// The headline figures of a book. Fails only where an atom's support cannot be rendered.
pub fn summarize<C: Calc>(calc: &C, book: &Book, ev: &mut Evaluator) -> (r: Result<
    BookSummary,
    FofError,
>)
    requires
        calc.repeatable(),
    ensures
        ({
            let n = book.selections@.len() as int;
            let (lens, k) = supports_through(calc, old(ev)@, book.selections@, n);
            &&& final(ev)@ == k
            &&& match (lens, r) {
                (Ok(lens), Ok(s)) => is_summary(calc, s, *book, lens),
                (Err(e), Err(f)) => e == f,
                _ => false,
            }
        }),
{
    let ghost sels = book.selections@;
    let ghost k = ev@;
    let ghost mut lens: Seq<usize> = seq![];
    let n: usize = book.selections.len();
    let mut span: (i64, i64) = (0, 0);
    let mut refined: usize = 0;
    let mut hrmp: usize = 0;
    let mut shortfall: usize = 0;
    let mut fractions: Vec<Double> = Vec::new();
    let mut removed: Vec<Double> = Vec::new();
    let mut sum_removed = Double { bits: 0 };
    let mut hr_consistency = Double { bits: 0 };
    let ghost is_refined = |s: Selection| s.refined;
    let ghost is_validated = |s: Selection| s.hr_score is Some;
    let ghost is_short = |s: Selection| fell_short(calc, s);
    let mut i: usize = 0;
    while i < n
        invariant
            calc.repeatable(),
            k == old(ev)@,
            n == book.selections@.len(),
            i <= n,
            sels == book.selections@,
            is_refined == (|s: Selection| s.refined),
            is_validated == (|s: Selection| s.hr_score is Some),
            is_short == (|s: Selection| fell_short(calc, s)),
            supports_through(calc, k, sels, i as int) == (Ok::<Seq<usize>, FofError>(lens), ev@),
            lens.len() == i,
            span == span_of(sels, lens, i as int),
            refined == count_where(sels, is_refined, i as int),
            hrmp == count_where(sels, is_validated, i as int),
            shortfall == count_where(sels, is_short, i as int),
            fractions@ == ratios(calc, sels, i as int),
            removed@ == removals(sels).take(i as int),
            sum_removed == removed_sum(calc, sels, i as int),
            hr_consistency == inconsistency(calc, sels, i as int),
        decreases n - i,
    {
        let s = book.selections[i];
        let len: usize = match ev.support_len(calc, s.atom.env) {
            Ok(len) => len,
            Err(e) => {
                proof {
                    assert(supports_through(calc, k, sels, i + 1) == (
                        Err::<Seq<usize>, FofError>(e),
                        ev@,
                    ));
                    lemma_supports_stopped(calc, k, sels, i + 1, n as int);
                }
                return Err(e);
            },
        };
        let ghost before = lens;
        proof {
            lens = lens.push(len);
            lemma_span_prefix(sels, before, lens, i as int);
            lemma_count_bound(sels, is_refined, i as int);
            lemma_count_bound(sels, is_validated, i as int);
            lemma_count_bound(sels, is_short, i as int);
            assert(removals(sels).take(i + 1) =~= removals(sels).take(i as int).push(
                s.energy_removed,
            ));
        }
        let end: i64 = hold_to_range(s.atom.t0 as i128 + len as i128);
        if i == 0 {
            span = (s.atom.t0, end);
        } else {
            let first: i64 = if s.atom.t0 < span.0 {
                s.atom.t0
            } else {
                span.0
            };
            let last: i64 = if end > span.1 {
                end
            } else {
                span.1
            };
            span = (first, last);
        }
        if s.refined {
            refined += 1;
        }
        if let Some(hr) = s.hr_score {
            hrmp += 1;
            if s.energy_removed.is_positive() {
                hr_consistency = hr_consistency.max(calc.gap(hr, s.energy_removed));
            }
        }
        if s.projected_energy.is_positive() {
            let fraction = calc.over(s.energy_removed, s.projected_energy);
            fractions.push(fraction);
            if fraction.lt(Double { bits: SHORTFALL }) {
                shortfall += 1;
            }
        }
        removed.push(s.energy_removed);
        sum_removed = calc.plus(sum_removed, s.energy_removed);
        i += 1;
    }
    assert(removals(sels).take(n as int) =~= removals(sels));
    let goals: [Single; 4] = [
        Single { bits: 0x4120_0000 },
        Single { bits: 0x41a0_0000 },
        Single { bits: 0x41f0_0000 },
        Single { bits: 0x4220_0000 },
    ];
    assert(goals@ =~= targets());
    let mut atoms_to_reach: Vec<(Single, Option<usize>)> = Vec::new();
    let mut g: usize = 0;
    while g < 4
        invariant
            calc.repeatable(),
            g <= 4,
            goals@ == targets(),
            atoms_to_reach@.len() == g,
            forall|i: int|
                0 <= i < g ==> (#[trigger] atoms_to_reach@[i]).0 == targets()[i] && needed(
                    calc,
                    book.initial_energy,
                    book.selections@,
                    targets()[i],
                    atoms_to_reach@[i].1,
                ),
        decreases 4 - g,
    {
        let target = goals[g];
        atoms_to_reach.push((target, book.atoms_to_reach(calc, target)));
        g += 1;
    }
    let left = book.residual_energy();
    let captured = calc.minus(book.initial_energy, left);
    Ok(
        BookSummary {
            atoms: n,
            sample_rate: book.sample_rate,
            span,
            initial_energy: book.initial_energy,
            residual_energy: left,
            snr_db: book.snr_db(calc),
            atoms_to_reach,
            refined_frac: if n == 0 {
                Double { bits: 0 }
            } else {
                calc.fraction(refined, n)
            },
            hrmp_atoms: hrmp,
            removed_over_projected: Summary::of(calc, fractions.as_slice()),
            shortfall_atoms: shortfall,
            hr_consistency,
            deposited_frac: if captured.is_positive() {
                calc.over(sum_removed, captured)
            } else {
                Double { bits: 0 }
            },
            energy_removed: Summary::of(calc, removed.as_slice()),
        },
    )
}

/// A span rests on the supports of its own atoms.
proof fn lemma_span_prefix(sels: Seq<Selection>, a: Seq<usize>, b: Seq<usize>, n: int)
    requires
        0 <= n <= a.len() <= b.len(),
        forall|i: int| 0 <= i < n ==> #[trigger] a[i] == b[i],
    ensures
        span_of(sels, a, n) == span_of(sels, b, n),
    decreases n,
{
    if n > 0 {
        lemma_span_prefix(sels, a, b, n - 1);
        assert(a[n - 1] == b[n - 1]);
    }
}

/// A book's span holds every atom's.
pub proof fn law_span_holds_every_atom(sels: Seq<Selection>, lens: Seq<usize>, n: int, i: int)
    requires
        0 <= i < n,
    ensures
        span_of(sels, lens, n).0 <= sels[i].atom.t0,
        end_of(sels[i], lens[i]) <= span_of(sels, lens, n).1,
    decreases n,
{
    if i < n - 1 {
        law_span_holds_every_atom(sels, lens, n - 1, i);
    }
}

// ---------------------------------------------------------------------------------------------
// diagnostics
// ---------------------------------------------------------------------------------------------

/// How one dictionary block was used.
#[derive(Clone, Copy, Debug, PartialEq, Eq, Structural)]
pub struct BlockUse {
    pub index: usize,
    pub shape: Shape,
    pub support_len: usize,
    pub count: usize,
    /// Share of the energy removed that the block's seeds account for.
    pub energy_share: Double,
}

/// Diagnostics that need the dictionary the run used.
///
/// A book records only the seed's block index, never the grid itself, so the caller supplies the
/// configuration, and must say which one it used.
#[derive(Debug)]
pub struct Diagnostics {
    pub blocks: Vec<BlockUse>,
    /// Set when more than a quarter of a family's seeds sit on its first or last rung.
    pub edge_pileup: Option<String>,
    /// How far refinement walked each parameter from its seed.
    pub d_ln_alpha: Summary,
    pub d_ln_beta: Summary,
    pub d_ln_sigma: Summary,
    /// How far it moved the frequency, Hz.
    pub d_f_hz: Summary,
    /// How far it moved the onset, samples.
    pub d_t0: Summary,
    /// Atoms whose seed bin the block does not have, or whose block is missing or of another kind.
    pub off_grid_seeds: usize,
    /// Atoms whose seed bin was ill-conditioned.
    pub ill_conditioned: usize,
}

/// The seed's block is there, and of the atom's kind.
pub open spec fn on_ladder(blocks: Seq<Block>, s: Selection) -> bool {
    s.block < blocks.len() && blocks[s.block as int].env.params.family() == s.atom.env.family()
}

/// The seed's bin is one its block has.
pub open spec fn on_grid(blocks: Seq<Block>, s: Selection) -> bool {
    on_ladder(blocks, s) && blocks[s.block as int].k_lo <= s.bin <= blocks[s.block as int].k_hi
}

pub open spec fn ill_conditioned<C: Calc>(
    calc: &C,
    blocks: Seq<Block>,
    s: Selection,
    rho_sq_max: Single,
) -> bool {
    on_grid(blocks, s) && calc.square_over_of(
        blocks[s.block as int].rho@[s.bin - blocks[s.block as int].k_lo],
        rho_sq_max,
    )
}

/// What refinement did to one parameter of a selection, where the parameter is the selection's.
pub open spec fn drift<C: Calc>(calc: &C, blocks: Seq<Block>, s: Selection, what: Quantity) -> Option<
    Double,
> {
    if !on_ladder(blocks, s) {
        None
    } else {
        let block = blocks[s.block as int];
        match (what, block.env.params, s.atom.env) {
            (Quantity::Alpha, Shape::Fof(seed), Shape::Fof(atom)) => Some(
                calc.walk_of(atom.alpha, seed.alpha),
            ),
            (Quantity::Beta, Shape::Fof(seed), Shape::Fof(atom)) => if seed.beta.above_zero()
                && atom.beta.above_zero() {
                Some(calc.walk_of(atom.beta, seed.beta))
            } else {
                None
            },
            (Quantity::Sigma, Shape::Gaussian(seed), Shape::Gaussian(atom)) => Some(
                calc.walk_of(atom.sigma, seed.sigma),
            ),
            (Quantity::Freq, _, _) => Some(
                calc.detune_of(s.atom.f, block.env.sample_rate, block.fft_len, s.bin),
            ),
            (Quantity::T0, _, _) => Some(calc.whole_of(onset_gap(s))),
            _ => None,
        }
    }
}

/// Samples between an atom's onset and its seed's.
pub open spec fn onset_gap(s: Selection) -> u64 {
    let d = s.atom.t0 - s.onset;
    (if d < 0 {
        if -d > u64::MAX {
            u64::MAX as int
        } else {
            -d
        }
    } else {
        d
    }) as u64
}

/// The drifts of the first `n` selections, where there are any.
pub open spec fn drifts<C: Calc>(
    calc: &C,
    blocks: Seq<Block>,
    sels: Seq<Selection>,
    what: Quantity,
    n: int,
) -> Seq<Double>
    decreases n,
{
    if n <= 0 {
        seq![]
    } else {
        match drift(calc, blocks, sels[n - 1], what) {
            Some(d) => drifts(calc, blocks, sels, what, n - 1).push(d),
            None => drifts(calc, blocks, sels, what, n - 1),
        }
    }
}

/// The energy the first `n` selections seeded in block `b` removed, added in book order.
pub open spec fn energy_in<C: Calc>(calc: &C, sels: Seq<Selection>, b: int, n: int) -> Double
    decreases n,
{
    if n <= 0 {
        Double { bits: 0 }
    } else if sels[n - 1].block == b {
        calc.plus_of(energy_in(calc, sels, b, n - 1), sels[n - 1].energy_removed)
    } else {
        energy_in(calc, sels, b, n - 1)
    }
}

/// The first block of a kind at or after `from`, or the count of blocks.
pub open spec fn first_of(blocks: Seq<Block>, kind: AtomKind, from: int) -> int
    decreases blocks.len() - from,
{
    if from >= blocks.len() || blocks[from].env.params.family() == kind {
        from
    } else {
        first_of(blocks, kind, from + 1)
    }
}

/// The last block of a kind among the first `n`, or -1.
pub open spec fn last_of(blocks: Seq<Block>, kind: AtomKind, n: int) -> int
    decreases n,
{
    if n <= 0 {
        -1
    } else if blocks[n - 1].env.params.family() == kind {
        n - 1
    } else {
        last_of(blocks, kind, n - 1)
    }
}

/// Selections seeded in a block of a kind.
pub open spec fn seeds_of(blocks: Seq<Block>, sels: Seq<Selection>, kind: AtomKind) -> int {
    count_where(
        sels,
        |s: Selection|
            s.block < blocks.len() && blocks[s.block as int].env.params.family() == kind,
        sels.len() as int,
    )
}

/// The rung of its ladder a shape is on: a FOF's decay rate, whatever its attack, or a Gaussian's
/// width.
pub open spec fn rung(shape: Shape) -> Single {
    match shape {
        Shape::Fof(p) => p.alpha,
        Shape::Gaussian(g) => g.sigma,
    }
}

/// The rung a shape is on.
fn rung_of(shape: Shape) -> (r: Single)
    ensures
        r == rung(shape),
{
    match shape {
        Shape::Fof(p) => p.alpha,
        Shape::Gaussian(g) => g.sigma,
    }
}

/// A block of a kind, on the rung of that kind's first block or of its last.
///
/// Each family is listed rung by rung, so those are the ends of its ladder.
pub open spec fn on_edge(blocks: Seq<Block>, kind: AtomKind, b: int) -> bool {
    let at = rung(blocks[b].env.params);
    &&& 0 <= b < blocks.len()
    &&& blocks[b].env.params.family() == kind
    &&& {
        ||| at == rung(blocks[first_of(blocks, kind, 0)].env.params)
        ||| at == rung(blocks[last_of(blocks, kind, blocks.len() as int)].env.params)
    }
}

/// Seeds on the first or the last rung of a kind's ladder.
pub open spec fn edge_seeds(blocks: Seq<Block>, sels: Seq<Selection>, kind: AtomKind) -> int {
    count_where(sels, |s: Selection| on_edge(blocks, kind, s.block as int), sels.len() as int)
}

/// More than a quarter of a kind's seeds sit on its ladder's first or last rung.
pub open spec fn piles_up(blocks: Seq<Block>, sels: Seq<Selection>, kind: AtomKind) -> bool {
    &&& first_of(blocks, kind, 0) < blocks.len()
    &&& seeds_of(blocks, sels, kind) > 0
    &&& edge_seeds(blocks, sels, kind) * 4 > seeds_of(blocks, sels, kind)
}

/// What a pile-up is reported as.
pub open spec fn pileup_text<C: Calc>(
    calc: &C,
    blocks: Seq<Block>,
    sels: Seq<Selection>,
    kind: AtomKind,
) -> Seq<char> {
    calc.percent_of(
        edge_seeds(blocks, sels, kind) as u128,
        seeds_of(blocks, sels, kind) as usize,
    ) + "% of "@ + kind.spelling() + " seeds are on the first or last "@ + (match kind {
        AtomKind::Fof => "alpha"@,
        AtomKind::Gaussian => "sigma"@,
    }) + " rung — the ladder may not reach far enough"@
}

/// The warnings of both families, joined.
pub open spec fn pileups<C: Calc>(calc: &C, blocks: Seq<Block>, sels: Seq<Selection>) -> Option<
    Seq<char>,
> {
    let fof = piles_up(blocks, sels, AtomKind::Fof);
    let gaussian = piles_up(blocks, sels, AtomKind::Gaussian);
    if fof && gaussian {
        Some(
            pileup_text(calc, blocks, sels, AtomKind::Fof) + "; "@ + pileup_text(
                calc,
                blocks,
                sels,
                AtomKind::Gaussian,
            ),
        )
    } else if fof {
        Some(pileup_text(calc, blocks, sels, AtomKind::Fof))
    } else if gaussian {
        Some(pileup_text(calc, blocks, sels, AtomKind::Gaussian))
    } else {
        None
    }
}

/// How block `b` was used.
pub open spec fn block_use<C: Calc>(
    calc: &C,
    blocks: Seq<Block>,
    sels: Seq<Selection>,
    b: int,
) -> BlockUse {
    let n = sels.len() as int;
    let total = removed_sum(calc, sels, n);
    BlockUse {
        index: b as usize,
        shape: blocks[b].env.params,
        support_len: blocks[b].env.samples@.len() as usize,
        count: seeded_in(sels, b, n) as usize,
        energy_share: if total.positive() {
            calc.over_of(energy_in(calc, sels, b, n), total)
        } else {
            Double { bits: 0 }
        },
    }
}

fn gap_of_onset(s: &Selection) -> (r: u64)
    ensures
        r == onset_gap(*s),
{
    let d: i128 = s.atom.t0 as i128 - s.onset as i128;
    if d < 0 {
        if -d > u64::MAX as i128 {
            u64::MAX
        } else {
            (-d) as u64
        }
    } else {
        d as u64
    }
}

fn warn<C: Calc>(calc: &C, book: &Book, dict: &Dictionary, kind: AtomKind) -> (r: Option<String>)
    requires
        calc.repeatable(),
    ensures
        match r {
            Some(text) => piles_up(dict.blocks@, book.selections@, kind) && text@ == pileup_text(
                calc,
                dict.blocks@,
                book.selections@,
                kind,
            ),
            None => !piles_up(dict.blocks@, book.selections@, kind),
        },
{
    let ghost blocks = dict.blocks@;
    let ghost sels = book.selections@;
    let n: usize = dict.blocks.len();
    let mut first: usize = 0;
    while first < n && dict.blocks[first].env.kind() != kind
        invariant
            n == dict.blocks@.len(),
            blocks == dict.blocks@,
            first <= n,
            first_of(blocks, kind, 0) == first_of(blocks, kind, first as int),
        decreases n - first,
    {
        first += 1;
    }
    if first >= n {
        return None;
    }
    let mut above: usize = n;
    while above > first + 1 && dict.blocks[above - 1].env.kind() != kind
        invariant
            n == dict.blocks@.len(),
            blocks == dict.blocks@,
            first < above <= n,
            blocks[first as int].env.params.family() == kind,
            last_of(blocks, kind, n as int) == last_of(blocks, kind, above as int),
        decreases above,
    {
        above -= 1;
    }
    let last: usize = above - 1;
    assert(last_of(blocks, kind, n as int) == last);
    let low = rung_of(dict.blocks[first].env.params);
    let high = rung_of(dict.blocks[last].env.params);
    let ghost here = |s: Selection|
        s.block < blocks.len() && blocks[s.block as int].env.params.family() == kind;
    let ghost outer = |s: Selection| on_edge(blocks, kind, s.block as int);
    let mut seeds: usize = 0;
    let mut edge: usize = 0;
    let mut i: usize = 0;
    while i < book.selections.len()
        invariant
            n == dict.blocks@.len(),
            blocks == dict.blocks@,
            sels == book.selections@,
            here == (|s: Selection|
                s.block < blocks.len() && blocks[s.block as int].env.params.family() == kind),
            outer == (|s: Selection| on_edge(blocks, kind, s.block as int)),
            low == rung(blocks[first_of(blocks, kind, 0)].env.params),
            high == rung(blocks[last_of(blocks, kind, n as int)].env.params),
            i <= sels.len(),
            seeds == count_where(sels, here, i as int),
            edge == count_where(sels, outer, i as int),
            edge <= seeds <= i,
        decreases sels.len() - i,
    {
        let b: usize = book.selections[i].block;
        if b < n && dict.blocks[b].env.kind() == kind {
            seeds += 1;
            let at = rung_of(dict.blocks[b].env.params);
            if at == low || at == high {
                edge += 1;
            }
        }
        i += 1;
    }
    if edge as u128 * 4 <= seeds as u128 {
        return None;
    }
    let mut text = calc.percent(edge as u128, seeds);
    text.append("% of ");
    text.append(kind.name());
    text.append(" seeds are on the first or last ");
    text.append(
        match kind {
            AtomKind::Fof => "alpha",
            AtomKind::Gaussian => "sigma",
        },
    );
    text.append(" rung — the ladder may not reach far enough");
    Some(text)
}

/// Say how a book used the dictionary it was run against.
pub fn diagnose<C: Calc>(calc: &C, book: &Book, dict: &Dictionary, rho_sq_max: Single) -> (r:
    Diagnostics)
    requires
        calc.repeatable(),
        forall|b: int| 0 <= b < dict.blocks@.len() ==> (#[trigger] dict.blocks@[b]).wf(),
    ensures
        ({
            let blocks = dict.blocks@;
            let sels = book.selections@;
            let n = sels.len() as int;
            &&& r.blocks@.len() == blocks.len()
            &&& forall|b: int|
                0 <= b < blocks.len() ==> #[trigger] r.blocks@[b] == block_use(calc, blocks, sels, b)
            &&& match (r.edge_pileup, pileups(calc, blocks, sels)) {
                (Some(text), Some(want)) => text@ == want,
                (None, None) => true,
                _ => false,
            }
            &&& r.d_ln_alpha == summary(calc, drifts(calc, blocks, sels, Quantity::Alpha, n))
            &&& r.d_ln_beta == summary(calc, drifts(calc, blocks, sels, Quantity::Beta, n))
            &&& r.d_ln_sigma == summary(calc, drifts(calc, blocks, sels, Quantity::Sigma, n))
            &&& r.d_f_hz == summary(calc, drifts(calc, blocks, sels, Quantity::Freq, n))
            &&& r.d_t0 == summary(calc, drifts(calc, blocks, sels, Quantity::T0, n))
            &&& r.off_grid_seeds == count_where(sels, |s: Selection| !on_grid(blocks, s), n)
            &&& r.ill_conditioned == count_where(
                sels,
                |s: Selection| ill_conditioned(calc, blocks, s, rho_sq_max),
                n,
            )
        }),
{
    let ghost blocks = dict.blocks@;
    let ghost sels = book.selections@;
    let n_blocks: usize = dict.blocks.len();
    let hist = book.block_histogram(n_blocks);
    let mut energy: Vec<Double> = Vec::new();
    let mut b: usize = 0;
    while b < n_blocks
        invariant
            b <= n_blocks,
            energy@.len() == b,
            forall|i: int| 0 <= i < b ==> (#[trigger] energy@[i]).bits == 0,
        decreases n_blocks - b,
    {
        energy.push(Double { bits: 0 });
        b += 1;
    }
    let mut d_a: Vec<Double> = Vec::new();
    let mut d_b: Vec<Double> = Vec::new();
    let mut d_s: Vec<Double> = Vec::new();
    let mut d_f: Vec<Double> = Vec::new();
    let mut d_t: Vec<Double> = Vec::new();
    let mut off_grid: usize = 0;
    let mut ill: usize = 0;
    let mut total = Double { bits: 0 };
    let ghost is_off = |s: Selection| !on_grid(blocks, s);
    let ghost is_ill = |s: Selection| ill_conditioned(calc, blocks, s, rho_sq_max);
    let mut i: usize = 0;
    while i < book.selections.len()
        invariant
            calc.repeatable(),
            blocks == dict.blocks@,
            sels == book.selections@,
            n_blocks == blocks.len(),
            forall|b: int| 0 <= b < blocks.len() ==> (#[trigger] blocks[b]).wf(),
            is_off == (|s: Selection| !on_grid(blocks, s)),
            is_ill == (|s: Selection| ill_conditioned(calc, blocks, s, rho_sq_max)),
            i <= sels.len(),
            energy@.len() == n_blocks,
            forall|b: int|
                0 <= b < n_blocks ==> #[trigger] energy@[b] == energy_in(calc, sels, b, i as int),
            total == removed_sum(calc, sels, i as int),
            d_a@ == drifts(calc, blocks, sels, Quantity::Alpha, i as int),
            d_b@ == drifts(calc, blocks, sels, Quantity::Beta, i as int),
            d_s@ == drifts(calc, blocks, sels, Quantity::Sigma, i as int),
            d_f@ == drifts(calc, blocks, sels, Quantity::Freq, i as int),
            d_t@ == drifts(calc, blocks, sels, Quantity::T0, i as int),
            off_grid == count_where(sels, is_off, i as int),
            off_grid <= i,
            ill == count_where(sels, is_ill, i as int),
            ill <= i,
        decreases sels.len() - i,
    {
        let s = book.selections[i];
        assert(s == sels[i as int]);
        total = calc.plus(total, s.energy_removed);
        if s.block < n_blocks {
            let more = calc.plus(energy[s.block], s.energy_removed);
            energy.set(s.block, more);
            let block = &dict.blocks[s.block];
            assert(blocks[s.block as int].wf());
            let seed_shape = block.env.params;
            let same_kind = match (seed_shape, s.atom.env) {
                (Shape::Fof(seed), Shape::Fof(atom)) => {
                    d_a.push(calc.walk(atom.alpha, seed.alpha));
                    if seed.beta.is_above_zero() && atom.beta.is_above_zero() {
                        d_b.push(calc.walk(atom.beta, seed.beta));
                    }
                    true
                },
                (Shape::Gaussian(seed), Shape::Gaussian(atom)) => {
                    d_s.push(calc.walk(atom.sigma, seed.sigma));
                    true
                },
                // Refinement never changes kind, so a seed block of the other kind means the
                // configuration does not describe the run that wrote this book.
                _ => false,
            };
            if same_kind {
                d_f.push(calc.detune(s.atom.f, block.env.sample_rate, block.fft_len, s.bin));
                d_t.push(calc.whole(gap_of_onset(&s)));
                match block.rho(s.bin) {
                    None => {
                        off_grid += 1;
                    },
                    Some(rho) => {
                        if calc.square_over(rho, rho_sq_max) {
                            ill += 1;
                        }
                    },
                }
            } else {
                off_grid += 1;
            }
        } else {
            off_grid += 1;
        }
        i += 1;
    }
    let mut uses: Vec<BlockUse> = Vec::new();
    let mut b: usize = 0;
    while b < n_blocks
        invariant
            calc.repeatable(),
            blocks == dict.blocks@,
            sels == book.selections@,
            n_blocks == blocks.len(),
            b <= n_blocks,
            energy@.len() == n_blocks,
            hist@.len() == n_blocks,
            forall|b: int|
                0 <= b < n_blocks ==> #[trigger] energy@[b] == energy_in(
                    calc,
                    sels,
                    b,
                    sels.len() as int,
                ),
            forall|b: int|
                0 <= b < n_blocks ==> #[trigger] hist@[b] == seeded_in(sels, b, sels.len() as int),
            total == removed_sum(calc, sels, sels.len() as int),
            uses@.len() == b,
            forall|j: int|
                0 <= j < b ==> #[trigger] uses@[j] == block_use(calc, blocks, sels, j),
        decreases n_blocks - b,
    {
        let count: usize = hist[b];
        let energy_share = if total.is_positive() {
            calc.over(energy[b], total)
        } else {
            Double { bits: 0 }
        };
        uses.push(
            BlockUse {
                index: b,
                shape: dict.blocks[b].env.params,
                support_len: dict.blocks[b].support_len(),
                count,
                energy_share,
            },
        );
        b += 1;
    }
    let fof = warn(calc, book, dict, AtomKind::Fof);
    let gaussian = warn(calc, book, dict, AtomKind::Gaussian);
    let edge_pileup = match (fof, gaussian) {
        (Some(a), Some(b)) => {
            let mut text = a;
            text.append("; ");
            text.append(b.as_str());
            Some(text)
        },
        (Some(a), None) => Some(a),
        (None, b) => b,
    };
    Diagnostics {
        blocks: uses,
        edge_pileup,
        d_ln_alpha: Summary::of(calc, d_a.as_slice()),
        d_ln_beta: Summary::of(calc, d_b.as_slice()),
        d_ln_sigma: Summary::of(calc, d_s.as_slice()),
        d_f_hz: Summary::of(calc, d_f.as_slice()),
        d_t0: Summary::of(calc, d_t.as_slice()),
        off_grid_seeds: off_grid,
        ill_conditioned: ill,
    }
}

/// An evaluation comes to a number close to `y`.
pub open spec fn comes_to(x: Result<Option<Double>, FofError>, y: real) -> bool {
    tame(y) ==> (x matches Ok(Some(v)) && v.finite() && close(v.value(), y, 12))
}

/// The quantities of a grain are what their names say: its bandwidth is its decay over pi, its times are
/// in milliseconds and its onset in seconds, and its sharpness is its carrier over its bandwidth.
pub proof fn law_quantities_of_a_grain<R, Render, Decibels, Snr>(
    calc: &Figures<R, Render, Decibels, Snr>,
    k: Known,
    s: Selection,
    p: EnvelopeParams,
) where
    R: Reals,
    Render: Fn(Shape) -> Result<usize, FofError>,
    Decibels: Fn(Single) -> Double,
    Snr: Fn(Double, Double) -> Single,

    requires
        rounds(&calc.reals),
        s.atom.env == Shape::Fof(p),
        p.alpha.finite() && p.beta.finite() && p.fade_dur.finite() && s.atom.f.finite(),
        k.sample_rate.finite(),
        ordinary(p.alpha.value()),
        ordinary(p.beta.value()),
        ordinary(p.fade_dur.value()),
        ordinary(s.atom.f.value()),
        ordinary(k.sample_rate.value()),
    ensures
        ({
            let (alpha, beta, f) = (p.alpha.value(), p.beta.value(), s.atom.f.value());
            let (rate, pi) = (k.sample_rate.value(), 3_141_593real / 1_000_000real);
            let of = |q: Quantity| evaluated(calc, k, s, q).0;
            &&& comes_to(of(Quantity::Alpha), alpha)
            &&& comes_to(of(Quantity::Bandwidth), alpha / pi)
            &&& comes_to(of(Quantity::Beta), beta * 1000real)
            &&& comes_to(of(Quantity::AlphaBeta), alpha * beta)
            &&& comes_to(of(Quantity::Freq), f)
            &&& comes_to(of(Quantity::FadeDurMs), p.fade_dur.value() * 1000real)
            &&& comes_to(of(Quantity::Q), f * pi / alpha)
            &&& comes_to(of(Quantity::Rho), alpha / (6_283_185real / 1_000_000real * f))
            &&& 1 <= s.atom.t0 ==> comes_to(of(Quantity::T0), s.atom.t0 as real / rate)
            &&& of(Quantity::Sigma) == Ok::<Option<Double>, FofError>(None)
        }),
{
    let r = &calc.reals;
    let (alpha, beta, f) = (p.alpha.value(), p.beta.value(), s.atom.f.value());
    let (rate, pi, tau) = (
        k.sample_rate.value(),
        3_141_593real / 1_000_000real,
        6_283_185real / 1_000_000real,
    );
    lemma_circle_constants();
    lemma_small_numbers();
    lemma_a_thousand();
    lemma_close_to_itself(alpha, 0);
    lemma_close_to_itself(beta, 0);
    lemma_close_to_itself(f, 0);
    lemma_close_to_itself(rate, 0);
    lemma_close_to_itself(p.fade_dur.value(), 0);
    lemma_close_to_itself(1000real, 0);
    lemma_close_to_itself(alpha, 12);
    lemma_close_to_itself(f, 12);
    let (wa, wb, wf) = (r.widen_of(p.alpha), r.widen_of(p.beta), r.widen_of(s.atom.f));
    let (wd, wr) = (r.widen_of(p.fade_dur), r.widen_of(k.sample_rate));
    let zero = Single { bits: 0 };
    lemma_nothing_single();
    lemma_in_order_single(zero, p.alpha);
    lemma_in_order_single(zero, s.atom.f);
    let (cpi, ctau) = (Double { bits: 0x4009_21fb_5444_2d18 }, Double { bits: 0x4019_21fb_5444_2d18 });
    let mille = Double { bits: 0x408f_4000_0000_0000 };
    lemma_over(r, wa, cpi, alpha, pi, 0, 1);
    lemma_close_looser(r.over_of(wa, cpi).value(), alpha / pi, 5, 12);
    lemma_times(r, wb, mille, beta, 1000real, 0, 0);
    lemma_close_looser(r.times_of(wb, mille).value(), beta * 1000real, 3, 12);
    lemma_times(r, wd, mille, p.fade_dur.value(), 1000real, 0, 0);
    lemma_close_looser(r.times_of(wd, mille).value(), p.fade_dur.value() * 1000real, 3, 12);
    if tame(alpha * beta) {
        lemma_times(r, wa, wb, alpha, beta, 0, 0);
        lemma_close_looser(r.times_of(wa, wb).value(), alpha * beta, 3, 12);
    }
    lemma_times(r, wf, cpi, f, pi, 0, 1);
    if tame(f * pi / alpha) {
        lemma_over(r, r.times_of(wf, cpi), wa, f * pi, alpha, 4, 0);
        lemma_close_looser(r.over_of(r.times_of(wf, cpi), wa).value(), f * pi / alpha, 8, 12);
    }
    lemma_times(r, ctau, wf, tau, f, 1, 0);
    if tame(alpha / (tau * f)) {
        lemma_over(r, wa, r.times_of(ctau, wf), alpha, tau * f, 0, 4);
        lemma_close_looser(r.over_of(wa, r.times_of(ctau, wf)).value(), alpha / (tau * f), 8, 12);
    }
    if 1 <= s.atom.t0 && tame(s.atom.t0 as real / rate) {
        let t = r.long_of(s.atom.t0 as i128);
        assert(gives(t, s.atom.t0 as i128 as real));
        lemma_over(r, t, wr, s.atom.t0 as real, rate, 1, 0);
        lemma_close_looser(r.over_of(t, wr).value(), s.atom.t0 as real / rate, 5, 12);
    }
}

/// An atom is as long as its support, in milliseconds, and its periods are how often its carrier turns
/// meanwhile.
pub proof fn law_lengths_of_an_atom<R, Render, Decibels, Snr>(
    calc: &Figures<R, Render, Decibels, Snr>,
    k: Known,
    s: Selection,
    n: usize,
) where
    R: Reals,
    Render: Fn(Shape) -> Result<usize, FofError>,
    Decibels: Fn(Single) -> Double,
    Snr: Fn(Double, Double) -> Single,

    requires
        rounds(&calc.reals),
        s.atom.f.finite() && k.sample_rate.finite(),
        ordinary(s.atom.f.value()),
        ordinary(k.sample_rate.value()),
        support_for(calc, k, s.atom.env).0 == Ok::<usize, FofError>(n),
        1 <= n,
    ensures
        ({
            let (f, rate) = (s.atom.f.value(), k.sample_rate.value());
            &&& comes_to(
                evaluated(calc, k, s, Quantity::SupportMs).0,
                n as real * 1000real / rate,
            )
            &&& tame(n as real * f) ==> comes_to(
                evaluated(calc, k, s, Quantity::Periods).0,
                n as real * f / rate,
            )
        }),
{
    let r = &calc.reals;
    let (f, rate) = (s.atom.f.value(), k.sample_rate.value());
    lemma_a_thousand();
    lemma_close_to_itself(f, 0);
    lemma_close_to_itself(rate, 0);
    lemma_close_to_itself(1000real, 0);
    let (wf, wr) = (r.widen_of(s.atom.f), r.widen_of(k.sample_rate));
    let mille = Double { bits: 0x408f_4000_0000_0000 };
    let c = r.count_of(n);
    lemma_counts(r, n);
    lemma_times(r, c, mille, n as real, 1000real, 1, 0);
    if tame(n as real * 1000real / rate) {
        lemma_over(r, r.times_of(c, mille), wr, n as real * 1000real, rate, 4, 0);
        lemma_close_looser(
            r.over_of(r.times_of(c, mille), wr).value(),
            n as real * 1000real / rate,
            8,
            12,
        );
    }
    if tame(n as real * f) && tame(n as real * f / rate) {
        lemma_times(r, c, wf, n as real, f, 1, 0);
        lemma_above(n as real, f);
        lemma_over(r, r.times_of(c, wf), wr, n as real * f, rate, 4, 0);
        lemma_close_looser(r.over_of(r.times_of(c, wf), wr).value(), n as real * f / rate, 8, 12);
    }
}

/// An atom's energy reads ten times the decimal logarithm of its share of the sound's.
pub proof fn law_energies_read_in_decibels<R, Render, Decibels, Snr>(
    calc: &Figures<R, Render, Decibels, Snr>,
    l: spec_fn(real) -> real,
    k: Known,
    s: Selection,
) where
    R: Reals,
    Render: Fn(Shape) -> Result<usize, FofError>,
    Decibels: Fn(Single) -> Double,
    Snr: Fn(Double, Double) -> Single,

    requires
        rounds(&calc.reals),
        is_logarithm(l, 10real),
        takes_log10s(&calc.reals, l),
        k.initial_energy.finite() && s.energy_removed.finite(),
        k.initial_energy.positive() && s.energy_removed.positive(),
        0real < k.initial_energy.value(),
        0real < s.energy_removed.value(),
        tame(s.energy_removed.value() / k.initial_energy.value()),
    ensures
        exists|share: real|
            {
                &&& #[trigger] close(share, s.energy_removed.value() / k.initial_energy.value(), 1)
                &&& evaluated(calc, k, s, Quantity::EnergyDb).0 matches Ok(Some(v))
                &&& close(v.value(), 10real * l(share), 3)
            },
{
    let r = &calc.reals;
    lemma_small_numbers();
    let ten = Double { bits: 0x4024_0000_0000_0000 };
    let q = r.over_of(s.energy_removed, k.initial_energy);
    let ideal = s.energy_removed.value() / k.initial_energy.value();
    assert(gives(q, ideal));
    let share = q.value();
    lemma_close_sign(share, ideal, 1);
    let log = r.log10_of(q);
    assert(is_log(log, l(share)));
    assert(moderate(10real * log.value()));
    assert(gives(r.times_of(ten, log), 10real * log.value()));
    assert(close(10real * log.value(), 10real * l(share), 1));
    lemma_close_through(r.times_of(ten, log).value(), 10real * log.value(), 10real * l(share), 1, 1);
}

} // verus!
