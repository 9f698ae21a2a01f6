//! Everything `rmp` says about a run, and nothing else.
//!
//! The pipeline reports facts and formats nothing, so this is the only place that knows what an
//! analysis reads like. Whatever happens while the pursuit is working is said as it happens;
//! everything else is read off the finished run afterwards.

use crate::atom::AtomKind;
use crate::book::{count_where, Book};
use crate::calc::Calc;
use crate::dict::{Block, Dictionary};
use crate::display::{HUNDRED, THOUSAND};
use crate::ieee::{Double, Single, INFINITY};
use crate::notation::Notation;
use crate::pipeline::{unrefinable_blocks, Refresh};
use crate::pursuit::{MpConfig, Selection};
use crate::residual::book::ResidualBook;
use crate::table::{join, joined, padded, push_padded, texts, Page};
use crate::text::{push_number, written};
use crate::window::WindowPlan;
use vstd::prelude::*;

verus! {

/// The bits of two to the twentieth.
pub const MEBI: u64 = 0x4130_0000_0000_0000;

/// The bits of a million.
pub const MILLION: u64 = 0x412e_8480_0000_0000;

/// The bits of the smallest normal number.
pub const TINY: u64 = 0x0010_0000_0000_0000;

// ---------------------------------------------------------------------------------------------
// kinds
// ---------------------------------------------------------------------------------------------

/// How many of the first `m` blocks are of a kind.
pub open spec fn blocks_of(blocks: Seq<Block>, kind: AtomKind, m: int) -> int
    decreases m,
{
    if m <= 0 {
        0
    } else {
        blocks_of(blocks, kind, m - 1) + if blocks[m - 1].env.params.family() == kind {
            1int
        } else {
            0
        }
    }
}

/// A kind with its count, where there are any.
pub open spec fn present(kind: AtomKind, count: int) -> Seq<(AtomKind, usize)> {
    if count > 0 {
        seq![(kind, count as usize)]
    } else {
        seq![]
    }
}

/// The kinds a dictionary actually holds, with their block counts.
pub open spec fn kinds_held(blocks: Seq<Block>) -> Seq<(AtomKind, usize)> {
    let m = blocks.len() as int;
    present(AtomKind::Fof, blocks_of(blocks, AtomKind::Fof, m)) + present(
        AtomKind::Gaussian,
        blocks_of(blocks, AtomKind::Gaussian, m),
    )
}

/// The kinds a book's atoms are of, with their counts.
pub open spec fn kinds_selected(sels: Seq<Selection>) -> Seq<(AtomKind, usize)> {
    present(AtomKind::Fof, of_kind(sels, AtomKind::Fof, sels.len() as int)) + present(
        AtomKind::Gaussian,
        of_kind(sels, AtomKind::Gaussian, sels.len() as int),
    )
}

/// How many of the first `m` selections are of a kind.
pub open spec fn of_kind(sels: Seq<Selection>, kind: AtomKind, m: int) -> int {
    count_where(sels, |s: Selection| s.atom.env.family() == kind, m)
}

fn count_blocks(dict: &Dictionary, kind: AtomKind) -> (r: usize)
    ensures
        r == blocks_of(dict.blocks@, kind, dict.blocks@.len() as int),
{
    let mut count: usize = 0;
    let mut i: usize = 0;
    while i < dict.blocks.len()
        invariant
            i <= dict.blocks@.len(),
            count <= i,
            count == blocks_of(dict.blocks@, kind, i as int),
        decreases dict.blocks@.len() - i,
    {
        if dict.blocks[i].env.kind() == kind {
            count += 1;
        }
        i += 1;
    }
    count
}

fn count_selected(sels: &[Selection], kind: AtomKind) -> (r: usize)
    ensures
        r == of_kind(sels@, kind, sels@.len() as int),
{
    let ghost holds = |s: Selection| s.atom.env.family() == kind;
    let mut count: usize = 0;
    let mut i: usize = 0;
    while i < sels.len()
        invariant
            i <= sels@.len(),
            count <= i,
            holds == (|s: Selection| s.atom.env.family() == kind),
            count == count_where(sels@, holds, i as int),
        decreases sels@.len() - i,
    {
        if sels[i].atom.kind() == kind {
            count += 1;
        }
        i += 1;
    }
    count
}

/// The kinds a dictionary actually holds, in the order reports list them, with their block counts.
pub fn kinds_of(dict: &Dictionary) -> (r: Vec<(AtomKind, usize)>)
    ensures
        r@ == kinds_held(dict.blocks@),
{
    let mut out: Vec<(AtomKind, usize)> = Vec::new();
    let fofs: usize = count_blocks(dict, AtomKind::Fof);
    if fofs > 0 {
        out.push((AtomKind::Fof, fofs));
    }
    let gaussians: usize = count_blocks(dict, AtomKind::Gaussian);
    if gaussians > 0 {
        out.push((AtomKind::Gaussian, gaussians));
    }
    assert(out@ =~= kinds_held(dict.blocks@));
    out
}

/// The kinds a book's atoms are of, in the order reports list them, with their counts.
pub fn kinds_in(book: &Book) -> (r: Vec<(AtomKind, usize)>)
    ensures
        r@ == kinds_selected(book.selections@),
{
    let mut out: Vec<(AtomKind, usize)> = Vec::new();
    let fofs: usize = count_selected(book.selections.as_slice(), AtomKind::Fof);
    if fofs > 0 {
        out.push((AtomKind::Fof, fofs));
    }
    let gaussians: usize = count_selected(book.selections.as_slice(), AtomKind::Gaussian);
    if gaussians > 0 {
        out.push((AtomKind::Gaussian, gaussians));
    }
    assert(out@ =~= kinds_selected(book.selections@));
    out
}

/// Each kind with its count.
pub open spec fn kind_texts(kinds: Seq<(AtomKind, usize)>) -> Seq<Seq<char>> {
    Seq::new(kinds.len(), |i: int| written(kinds[i].1 as int) + " "@ + kinds[i].0.spelling())
}

/// Each kind with its count.
pub fn kinds_text(kinds: &Vec<(AtomKind, usize)>) -> (r: Vec<String>)
    ensures
        texts(r@) == kind_texts(kinds@),
        r@.len() == kinds@.len(),
{
    let mut out: Vec<String> = Vec::new();
    let mut i: usize = 0;
    while i < kinds.len()
        invariant
            i <= kinds@.len(),
            out@.len() == i,
            forall|j: int| 0 <= j < i ==> (#[trigger] out@[j])@ == kind_texts(kinds@)[j],
        decreases kinds@.len() - i,
    {
        let mut text = "".to_owned();
        push_number(&mut text, kinds[i].1 as u64);
        text.append(" ");
        text.append(kinds[i].0.name());
        proof {
            reveal_strlit("");
            assert(text@ =~= kind_texts(kinds@)[i as int]);
        }
        out.push(text);
        i += 1;
    }
    assert(texts(out@) =~= kind_texts(kinds@));
    out
}

/// The energy the first `m` selections removed, all of them or those of one kind.
pub open spec fn removed_by<N: Notation>(
    n: &N,
    sels: Seq<Selection>,
    kind: Option<AtomKind>,
    m: int,
) -> Double
    decreases m,
{
    if m <= 0 {
        (Double { bits: 0x8000_0000_0000_0000 })
    } else {
        let before = removed_by(n, sels, kind, m - 1);
        let s = sels[m - 1];
        if kind is None || kind == Some(s.atom.env.family()) {
            n.plus_of(before, s.energy_removed)
        } else {
            before
        }
    }
}

fn total_removed<N: Notation>(n: &N, sels: &[Selection], kind: Option<AtomKind>) -> (r: Double)
    requires
        n.repeatable(),
    ensures
        r == removed_by(n, sels@, kind, sels@.len() as int),
{
    let mut sum = (Double { bits: 0x8000_0000_0000_0000 });
    let mut i: usize = 0;
    while i < sels.len()
        invariant
            n.repeatable(),
            i <= sels@.len(),
            sum == removed_by(n, sels@, kind, i as int),
        decreases sels@.len() - i,
    {
        let wanted: bool = match kind {
            None => true,
            Some(k) => k == sels[i].atom.kind(),
        };
        if wanted {
            sum = n.plus(sum, sels[i].energy_removed);
        }
        i += 1;
    }
    sum
}

/// How many atoms of one kind there are, and what share of the energy they removed.
pub open spec fn kind_share<N: Notation>(n: &N, sels: Seq<Selection>, kind: AtomKind) -> Seq<char> {
    let m = sels.len() as int;
    let energy = removed_by(n, sels, Some(kind), m);
    let total = removed_by(n, sels, None, m);
    written(of_kind(sels, kind, m)) + " "@ + kind.spelling() + " ("@ + n.fixed_of(
        n.over_of(
            n.times_of(Double { bits: HUNDRED }, energy),
            total.larger(Double { bits: TINY }),
        ),
        0,
    ) + "% of the energy removed)"@
}

/// How the removed energy divided between the kinds on offer.
pub fn per_kind<N: Notation>(n: &N, book: &Book, kinds: &[(AtomKind, usize)]) -> (r: Vec<String>)
    requires
        n.repeatable(),
    ensures
        texts(r@) == Seq::new(
            kinds@.len(),
            |i: int| kind_share(n, book.selections@, kinds@[i].0),
        ),
        r@.len() == kinds@.len(),
{
    let total = total_removed(n, book.selections.as_slice(), None);
    let mut out: Vec<String> = Vec::new();
    let mut i: usize = 0;
    while i < kinds.len()
        invariant
            n.repeatable(),
            i <= kinds@.len(),
            out@.len() == i,
            total == removed_by(n, book.selections@, None, book.selections@.len() as int),
            forall|j: int|
                0 <= j < i ==> (#[trigger] out@[j])@ == kind_share(n, book.selections@,
                    kinds@[j].0),
        decreases kinds@.len() - i,
    {
        let kind = kinds[i].0;
        let picked: usize = count_selected(book.selections.as_slice(), kind);
        let energy = total_removed(n, book.selections.as_slice(), Some(kind));
        let percent = n.over(
            n.times(Double { bits: HUNDRED }, energy),
            total.max(Double { bits: TINY }),
        );
        let mut text = "".to_owned();
        push_number(&mut text, picked as u64);
        text.append(" ");
        text.append(kind.name());
        text.append(" (");
        text.append(n.fixed(percent, 0).as_str());
        text.append("% of the energy removed)");
        proof {
            reveal_strlit("");
            assert(text@ =~= kind_share(n, book.selections@, kind));
        }
        out.push(text);
        i += 1;
    }
    assert(texts(out@) =~= Seq::new(
        kinds@.len(),
        |i: int| kind_share(n, book.selections@, kinds@[i].0),
    ));
    out
}

/// Every atom is of exactly one kind: the counts a book is divided into add up to the book.
pub proof fn law_kinds_divide_a_book(sels: Seq<Selection>, m: int)
    requires
        0 <= m <= sels.len(),
    ensures
        of_kind(sels, AtomKind::Fof, m) + of_kind(sels, AtomKind::Gaussian, m) == m,
    decreases m,
{
    if m > 0 {
        law_kinds_divide_a_book(sels, m - 1);
    }
}

// ---------------------------------------------------------------------------------------------
// while the pursuit works
// ---------------------------------------------------------------------------------------------

/// The longest of some blocks, the last of those as long.
pub open spec fn longest_of(lens: Seq<int>, m: int) -> int
    decreases m,
{
    if m <= 1 {
        0
    } else if lens[m - 1] >= lens[longest_of(lens, m - 1)] {
        m - 1
    } else {
        longest_of(lens, m - 1)
    }
}

/// What is said of a finished dictionary.
pub open spec fn dictionary_lines(dict: Dictionary, elapsed: Seq<char>) -> Seq<Seq<char>> {
    seq![
        "dictionary: "@ + written(dict.blocks@.len() as int) + " blocks ("@
            + joined(kind_texts(kinds_held(dict.blocks@)), kinds_held(dict.blocks@).len() as int)
            + ") in "@ + elapsed,
    ]
}

/// Appends [`dictionary_lines`].
pub fn dictionary(dict: &Dictionary, elapsed: &str, page: &mut Page)
    ensures
        final(page)@ == old(page)@ + dictionary_lines(*dict, elapsed@),
{
    let ghost before = page@;
    let mut line = "dictionary: ".to_owned();
    push_number(&mut line, dict.blocks.len() as u64);
    line.append(" blocks (");
    line.append(join(&kinds_text(&kinds_of(dict))).as_str());
    line.append(") in ");
    line.append(elapsed);
    page.push(line);
    assert(page@ =~= before + dictionary_lines(*dict, elapsed@));
}

/// What is said of the blocks refinement will decline, longest first among equals the last. A fact
/// rather than a fault: their atoms are still selected, and stay on the grid.
pub open spec fn unrefinable_lines(
    dict: Dictionary,
    cfg: MpConfig,
    descriptions: Seq<Seq<char>>,
) -> Seq<Seq<char>> {
    let m = dict.blocks@.len() as int;
    let limit = cfg.refine.max_atom_samples as int;
    let stuck = crate::pipeline::pinned(crate::pipeline::supports(dict), limit, m);
    if !cfg.refine.enabled || stuck.len() == 0 {
        seq![]
    } else {
        let lens = Seq::new(stuck.len(), |i: int| dict.blocks@[stuck[i]].support());
        let b = stuck[longest_of(lens, stuck.len() as int)];
        seq![
            "  note: "@ + written(stuck.len() as int) + " of "@ + written(m)
                + " blocks are longer than refine.max_atom_samples ("@ + written(limit)
                + "), so their atoms stay on the grid unrefined; longest support "@ + written(
                dict.blocks@[b].support(),
            ) + " samples ("@ + descriptions[b] + ")"@,
        ]
    }
}

/// Say which blocks refinement will decline. `descriptions` has one for each block.
pub fn unrefinable(dict: &Dictionary, cfg: &MpConfig, descriptions: &[String], page: &mut Page)
    requires
        descriptions@.len() == dict.blocks@.len(),
    ensures
        final(page)@ == old(page)@ + unrefinable_lines(*dict, *cfg, texts(descriptions@)),
{
    let ghost before = page@;
    let stuck = unrefinable_blocks(dict, cfg);
    let ghost ids = Seq::new(stuck@.len(), |i: int| stuck@[i] as int);
    let ghost lens = Seq::new(stuck@.len(), |i: int| dict.blocks@[stuck@[i] as int].support());
    if stuck.len() == 0 {
        assert(ids.len() == 0);
        assert(page@ =~= before + unrefinable_lines(*dict, *cfg, texts(descriptions@)));
        return;
    }
    let mut at: usize = 0;
    let mut i: usize = 1;
    while i < stuck.len()
        invariant
            1 <= i <= stuck@.len(),
            at < i,
            forall|k: int| 0 <= k < stuck@.len() ==> #[trigger] stuck@[k] < dict.blocks@.len(),
            lens == Seq::new(stuck@.len(), |i: int| dict.blocks@[stuck@[i] as int].support()),
            at == longest_of(lens, i as int),
        decreases stuck@.len() - i,
    {
        if dict.blocks[stuck[i]].support_len() >= dict.blocks[stuck[at]].support_len() {
            at = i;
        }
        i += 1;
    }
    let b: usize = stuck[at];
    let mut line = "  note: ".to_owned();
    push_number(&mut line, stuck.len() as u64);
    line.append(" of ");
    push_number(&mut line, dict.blocks.len() as u64);
    line.append(" blocks are longer than refine.max_atom_samples (");
    push_number(&mut line, cfg.refine.max_atom_samples as u64);
    line.append("), so their atoms stay on the grid unrefined; longest support ");
    push_number(&mut line, dict.blocks[b].support_len() as u64);
    line.append(" samples (");
    line.append(descriptions[b].as_str());
    line.append(")");
    page.push(line);
    proof {
        assert(ids == crate::pipeline::pinned(
            crate::pipeline::supports(*dict),
            cfg.refine.max_atom_samples as int,
            dict.blocks@.len() as int,
        ));
        assert(Seq::new(ids.len(), |i: int| dict.blocks@[ids[i]].support()) =~= lens);
        assert(ids[at as int] == b);
        assert(page@ =~= before + unrefinable_lines(*dict, *cfg, texts(descriptions@)));
    }
}

/// What is said of a plan to decompose the signal a window at a time.
pub open spec fn windows_lines<N: Notation>(n: &N, plan: WindowPlan, sample_rate: Single,
    max_memory_mb: usize) -> Seq<Seq<char>> {
    seq![
        "windows: "@ + written(plan.count as int) + " x "@
            + n.fixed_of(n.widen_of(n.over_single_of(n.count_single_of(plan.core_len),
            sample_rate)), 2) + " s core + "@
            + n.fixed_of(n.widen_of(n.over_single_of(n.count_single_of(plan.guard_len),
            sample_rate)), 2) + " s guard ("@
            + n.fixed_of(n.over_of(n.times_of(n.count_of((plan.core_len + plan.guard_len) as usize),
            plan.bytes_per_sample), Double { bits: MEBI }), 1) + " MiB of frame table each, "@
            + n.fixed_of(plan.bytes_per_sample, 2) + " B/sample)"@,
        "  selection is greedy within a window, not across the clip; target_snr_db, min_gain and max_atoms apply per window"@,
    ] + (if plan.over_budget {
        seq![
            "  note: a window cannot be shorter than four guards, so the core was raised to "@
                + n.fixed_of(n.widen_of(n.over_single_of(n.count_single_of(plan.core_len),
                sample_rate)), 2) + " s past what max_memory_mb ("@ + written(max_memory_mb as int)
                + " MiB) or window_seconds asked for. Shorten the longest atom -- a higher dictionary alpha, or a lower refine.max_atom_samples -- to window more finely"@,
        ]
    } else {
        seq![]
    })
}

/// Appends [`windows_lines`].
pub fn windows<N: Notation>(n: &N, plan: &WindowPlan, sample_rate: Single, max_memory_mb: usize,
    page: &mut Page)
    requires
        plan.core_len + plan.guard_len <= usize::MAX,
        n.repeatable(),
    ensures
        final(page)@ == old(page)@ + windows_lines(n, *plan, sample_rate, max_memory_mb),
{
    let ghost before = page@;
    let mut line = "windows: ".to_owned();
    push_number(&mut line, plan.count as u64);
    line.append(" x ");
    line.append(n.fixed(n.widen(n.over_single(n.count_single(plan.core_len), sample_rate)),
        2).as_str());
    line.append(" s core + ");
    line.append(n.fixed(n.widen(n.over_single(n.count_single(plan.guard_len), sample_rate)),
        2).as_str());
    line.append(" s guard (");
    line.append(n.fixed(n.over(n.times(n.count((plan.core_len + plan.guard_len) as usize),
        plan.bytes_per_sample), Double { bits: MEBI }), 1).as_str());
    line.append(" MiB of frame table each, ");
    line.append(n.fixed(plan.bytes_per_sample, 2).as_str());
    line.append(" B/sample)");
    page.push(line);
    page.push("  selection is greedy within a window, not across the clip; target_snr_db, min_gain and max_atoms apply per window".to_owned());
    if plan.over_budget {
        let mut line = "  note: a window cannot be shorter than four guards, so the core was raised to ".to_owned();
        line.append(n.fixed(n.widen(n.over_single(n.count_single(plan.core_len), sample_rate)),
            2).as_str());
        line.append(" s past what max_memory_mb (");
        push_number(&mut line, max_memory_mb as u64);
        line.append(" MiB) or window_seconds asked for. Shorten the longest atom -- a higher dictionary alpha, or a lower refine.max_atom_samples -- to window more finely");
        page.push(line);
    }
    assert(page@ =~= before + windows_lines(n, *plan, sample_rate, max_memory_mb));
}

/// What is said of a finished window.
pub open spec fn window_lines(index: usize, of: usize, atoms: usize) -> Seq<Seq<char>> {
    if of > 1 {
        seq![
            "  window "@ + written(index as int) + "/"@ + written(of as int) + ": "@
                + written(atoms as int) + " atoms so far"@,
        ]
    } else {
        seq![]
    }
}

/// Appends [`window_lines`].
pub fn window(index: usize, of: usize, atoms: usize, page: &mut Page)
    ensures
        final(page)@ == old(page)@ + window_lines(index, of, atoms),
{
    let ghost before = page@;
    if of > 1 {
        let mut line = "  window ".to_owned();
        push_number(&mut line, index as u64);
        line.append("/");
        push_number(&mut line, of as u64);
        line.append(": ");
        push_number(&mut line, atoms as u64);
        line.append(" atoms so far");
        page.push(line);
    }
    assert(page@ =~= before + window_lines(index, of, atoms));
}

// ---------------------------------------------------------------------------------------------
// before and after
// ---------------------------------------------------------------------------------------------

/// What was read.
pub struct Input {
    pub samples: usize,
    pub channels: usize,
    pub downmixed: bool,
    pub sample_rate: Single,
    /// Where the excerpt begins.
    pub offset: usize,
    /// Samples in the excerpt.
    pub excerpt: usize,
}

/// What is said of the input: what was read, and what part of it is being analysed. Everything downstream
/// is relative to that part, not to the file.
pub open spec fn input_lines<N: Notation>(n: &N, path: Seq<char>, i: Input) -> Seq<Seq<char>> {
    seq![
        path + ": "@ + n.fixed_of(n.widen_of(n.over_single_of(n.count_single_of(i.samples),
            i.sample_rate)), 2) + " s, "@ + written(n.whole_single_of(i.sample_rate) as int)
            + " Hz, "@ + written(i.channels as int) + " channel(s)"@,
    ] + (if i.excerpt != i.samples {
        seq![
            "  analysing "@ + n.fixed_of(n.widen_of(n.over_single_of(n.count_single_of(i.offset),
                i.sample_rate)), 3) + "-"@
                + n.fixed_of(n.widen_of(n.over_single_of(n.count_single_of((i.offset
                + i.excerpt) as usize), i.sample_rate)), 3) + " s ("@ + written(i.excerpt as int)
                + " samples from "@ + written(i.offset as int) + ")"@,
        ]
    } else {
        seq![]
    }) + (if i.downmixed {
        seq![
            "  downmixed to mono; out-of-phase content between channels partially cancels"@,
        ]
    } else {
        seq![]
    })
}

/// Appends [`input_lines`].
pub fn input<N: Notation>(n: &N, path: &str, i: &Input, page: &mut Page)
    requires
        i.offset + i.excerpt <= usize::MAX,
        n.repeatable(),
    ensures
        final(page)@ == old(page)@ + input_lines(n, path@, *i),
{
    let ghost before = page@;
    let mut line = path.to_owned();
    line.append(": ");
    line.append(n.fixed(n.widen(n.over_single(n.count_single(i.samples), i.sample_rate)),
        2).as_str());
    line.append(" s, ");
    push_number(&mut line, n.whole_single(i.sample_rate) as u64);
    line.append(" Hz, ");
    push_number(&mut line, i.channels as u64);
    line.append(" channel(s)");
    page.push(line);
    if i.excerpt != i.samples {
        let mut line = "  analysing ".to_owned();
        line.append(n.fixed(n.widen(n.over_single(n.count_single(i.offset), i.sample_rate)),
            3).as_str());
        line.append("-");
        line.append(n.fixed(n.widen(n.over_single(n.count_single((i.offset + i.excerpt) as usize),
            i.sample_rate)), 3).as_str());
        line.append(" s (");
        push_number(&mut line, i.excerpt as u64);
        line.append(" samples from ");
        push_number(&mut line, i.offset as u64);
        line.append(")");
        page.push(line);
    }
    if i.downmixed {
        page.push("  downmixed to mono; out-of-phase content between channels partially cancels".to_owned());
    }
    assert(page@ =~= before + input_lines(n, path@, *i));
}

/// How long a run took, as it is told.
pub struct Told {
    pub pursuit: String,
    pub init: String,
    /// Wall clock per second of audio.
    pub realtime_factor: Single,
}

/// How many atoms refinement moved.
pub open spec fn moved(book: Book) -> int {
    count_where(book.selections@, |s: Selection| s.refined, book.selections@.len() as int)
}

fn count_moved(book: &Book) -> (r: usize)
    ensures
        r == moved(*book),
{
    let ghost holds = |s: Selection| s.refined;
    let mut count: usize = 0;
    let mut i: usize = 0;
    while i < book.selections.len()
        invariant
            i <= book.selections@.len(),
            count <= i,
            holds == (|s: Selection| s.refined),
            count == count_where(book.selections@, holds, i as int),
        decreases book.selections@.len() - i,
    {
        if book.selections[i].refined {
            count += 1;
        }
        i += 1;
    }
    count
}

/// What the kinds on offer came to.
pub open spec fn kind_shares<N: Notation>(n: &N, book: Book, kinds: Seq<(AtomKind, usize)>) -> Seq<
    char,
> {
    joined(
        Seq::new(kinds.len(), |i: int| kind_share(n, book.selections@, kinds[i].0)),
        kinds.len() as int,
    )
}

/// What is said of the selection: how much was selected and how fast.
pub open spec fn selected_lines<N: Notation>(n: &N, book: Book, told: Told, snr: Single,
    cancelled: bool) -> Seq<Seq<char>> {
    seq![
        "analysis: "@ + written(book.selections@.len() as int) + " atoms, "@
            + n.fixed_of(n.widen_of(snr), 1) + " dB in "@ + told.pursuit@ + " (init "@ + told.init@
            + ", "@ + n.fixed_of(n.widen_of(told.realtime_factor), 1) + "x realtime)"@,
    ] + (if cancelled {
        seq![
            "  interrupted: the book holds only what had been selected by then"@,
        ]
    } else {
        seq![]
    })
}

/// Appends [`selected_lines`].
fn selected<N: Notation>(n: &N, book: &Book, told: &Told, snr: Single, cancelled: bool,
    page: &mut Page)
    requires
        n.repeatable(),
    ensures
        final(page)@ == old(page)@ + selected_lines(n, *book, *told, snr, cancelled),
{
    let ghost before = page@;
    let mut line = "analysis: ".to_owned();
    push_number(&mut line, book.selections.len() as u64);
    line.append(" atoms, ");
    line.append(n.fixed(n.widen(snr), 1).as_str());
    line.append(" dB in ");
    line.append(told.pursuit.as_str());
    line.append(" (init ");
    line.append(told.init.as_str());
    line.append(", ");
    line.append(n.fixed(n.widen(told.realtime_factor), 1).as_str());
    line.append("x realtime)");
    page.push(line);
    if cancelled {
        page.push("  interrupted: the book holds only what had been selected by then".to_owned());
    }
    assert(page@ =~= before + selected_lines(n, *book, *told, snr, cancelled));
}

/// What is said of the atoms: how many were refined, and how they divide between the kinds on offer.
pub open spec fn divided_lines<N: Notation>(n: &N, book: Book, kinds: Seq<(AtomKind, usize)>,
    cfg: MpConfig) -> Seq<Seq<char>> {
    (if book.selections@.len() != 0 && cfg.refine.enabled {
        seq![
            "  refined: "@ + written(moved(book)) + "/"@ + written(book.selections@.len() as int)
                + " atoms moved off the grid ("@ + n.fixed_of(n.over_of(n.times_of(Double {
                bits: HUNDRED }, n.count_of(moved(book) as usize)),
                n.count_of(book.selections@.len() as usize)), 0) + "%)"@,
        ]
    } else {
        seq![]
    }) + (if kinds.len() > 1 && book.selections@.len() != 0 {
        seq![
            "  kinds: "@ + kind_shares(n, book, kinds),
        ]
    } else {
        seq![]
    })
}

/// Appends [`divided_lines`].
fn divided<N: Notation>(n: &N, book: &Book, kinds: &Vec<(AtomKind, usize)>, cfg: &MpConfig,
    page: &mut Page)
    requires
        n.repeatable(),
    ensures
        final(page)@ == old(page)@ + divided_lines(n, *book, kinds@, *cfg),
{
    let ghost before = page@;
    if book.selections.len() != 0 && cfg.refine.enabled {
        let mut line = "  refined: ".to_owned();
        push_number(&mut line, count_moved(book) as u64);
        line.append("/");
        push_number(&mut line, book.selections.len() as u64);
        line.append(" atoms moved off the grid (");
        line.append(n.fixed(n.over(n.times(Double { bits: HUNDRED }, n.count(count_moved(book))),
            n.count(book.selections.len())), 0).as_str());
        line.append("%)");
        page.push(line);
    }
    if kinds.len() > 1 && book.selections.len() != 0 {
        let mut line = "  kinds: ".to_owned();
        line.append(join(&per_kind(n, book, kinds.as_slice())).as_str());
        page.push(line);
    }
    assert(page@ =~= before + divided_lines(n, *book, kinds@, *cfg));
}

/// What is said of how the pursuit ended.
pub open spec fn outcome_lines<N: Notation>(n: &N, atoms: usize, snr: Single, cancelled: bool,
    cfg: MpConfig) -> Seq<Seq<char>> {
    if atoms == 0 {
        seq![
            "  warning: no atoms selected — check the dictionary covers the signal's content"@,
        ]
    } else {
        if !cancelled && snr.less(cfg.target_snr_db) {
            seq![
                "  stopped short of the "@ + n.fixed_of(n.widen_of(cfg.target_snr_db), 1)
                    + " dB target (max_atoms = "@ + written(cfg.max_atoms as int) + ")"@,
            ]
        } else {
            seq![]
        }
    }
}

/// Appends [`outcome_lines`].
fn outcome<N: Notation>(n: &N, atoms: usize, snr: Single, cancelled: bool, cfg: &MpConfig,
    page: &mut Page)
    requires
        n.repeatable(),
    ensures
        final(page)@ == old(page)@ + outcome_lines(n, atoms, snr, cancelled, *cfg),
{
    let ghost before = page@;
    if atoms == 0 {
        page.push("  warning: no atoms selected — check the dictionary covers the signal's content".to_owned());
    } else {
        if !cancelled && snr.lt(cfg.target_snr_db) {
            let mut line = "  stopped short of the ".to_owned();
            line.append(n.fixed(n.widen(cfg.target_snr_db), 1).as_str());
            line.append(" dB target (max_atoms = ");
            push_number(&mut line, cfg.max_atoms as u64);
            line.append(")");
            page.push(line);
        }
    }
    assert(page@ =~= before + outcome_lines(n, atoms, snr, cancelled, *cfg));
}

/// What is said of the refresh: what it bounded, and what it then had to recompute.
pub open spec fn refreshed_lines<N: Notation>(n: &N, r: Refresh) -> Seq<Seq<char>> {
    if r.marked > 0 {
        seq![
            "  refresh: "@ + written(r.marked as int) + " frames bounded, "@
                + written(r.resolved as int) + " recomputed ("@
                + n.fixed_of(n.over_of(n.times_of(Double { bits: HUNDRED }, n.count_of(r.resolved)),
                n.count_of(r.marked)), 1) + "%)"@,
        ]
    } else {
        seq![]
    }
}

/// Appends [`refreshed_lines`].
fn refreshed<N: Notation>(n: &N, r: &Refresh, page: &mut Page)
    requires
        n.repeatable(),
    ensures
        final(page)@ == old(page)@ + refreshed_lines(n, *r),
{
    let ghost before = page@;
    if r.marked > 0 {
        let mut line = "  refresh: ".to_owned();
        push_number(&mut line, r.marked as u64);
        line.append(" frames bounded, ");
        push_number(&mut line, r.resolved as u64);
        line.append(" recomputed (");
        line.append(n.fixed(n.over(n.times(Double { bits: HUNDRED }, n.count(r.resolved)),
            n.count(r.marked)), 1).as_str());
        line.append("%)");
        page.push(line);
    }
    assert(page@ =~= before + refreshed_lines(n, *r));
}

/// What is said of the decomposition itself: what it selected, and what the refresh cost.
pub open spec fn analysis_lines<N: Notation, C: Calc>(
    n: &N,
    calc: &C,
    book: Book,
    dict: Dictionary,
    cfg: MpConfig,
    told: Told,
    cancelled: bool,
    refresh: Refresh,
) -> Seq<Seq<char>> {
    let snr = calc.snr_of(
        book.initial_energy,
        crate::book::energy_left(book.initial_energy, book.selections@),
    );
    selected_lines(n, book, told, snr, cancelled) + divided_lines(
        n,
        book,
        kinds_held(dict.blocks@),
        cfg,
    ) + outcome_lines(n, book.selections@.len() as usize, snr, cancelled, cfg) + refreshed_lines(
        n,
        refresh,
    )
}

/// Say what the decomposition selected, and what the refresh cost.
pub fn analysis<N: Notation, C: Calc>(
    n: &N,
    calc: &C,
    book: &Book,
    dict: &Dictionary,
    cfg: &MpConfig,
    told: &Told,
    cancelled: bool,
    refresh: &Refresh,
    page: &mut Page,
)
    requires
        n.repeatable(),
        calc.repeatable(),
    ensures
        final(page)@ == old(page)@ + analysis_lines(
            n,
            calc,
            *book,
            *dict,
            *cfg,
            *told,
            cancelled,
            *refresh,
        ),
{
    let ghost before = page@;
    let snr = book.snr_db(calc);
    let kinds = kinds_of(dict);
    selected(n, book, told, snr, cancelled, page);
    divided(n, book, &kinds, cfg, page);
    outcome(n, book.selections.len(), snr, cancelled, cfg, page);
    refreshed(n, refresh, page);
    proof {
        lemma_stacked(
            before,
            selected_lines(n, *book, *told, snr, cancelled),
            divided_lines(n, *book, kinds@, *cfg),
            outcome_lines(n, book.selections@.len() as usize, snr, cancelled, *cfg),
            refreshed_lines(n, *refresh),
        );
    }
}

/// Stacking pages one by one stacks them all.
proof fn lemma_stacked(
    p: Seq<Seq<char>>,
    a: Seq<Seq<char>>,
    b: Seq<Seq<char>>,
    c: Seq<Seq<char>>,
    d: Seq<Seq<char>>,
)
    ensures
        p + a + b + c + d == p + (a + b + c + d),
{
    assert(p + a + b + c + d =~= p + (a + b + c + d));
}

/// What is said of one block's refresh, in detail.
pub open spec fn block_refresh_lines<N: Notation>(n: &N, b: usize, description: Seq<char>,
    fft_len: usize, counts: (usize, usize)) -> Seq<Seq<char>> {
    seq![
        "    block "@ + padded(written(b as int), 2, false) + " "@ + padded(description, 30, true)
            + " fft "@ + padded(written(fft_len as int), 7, false) + ": "@
            + padded(written(counts.0 as int), 8, false) + " bounded "@
            + padded(written(counts.1 as int), 8, false) + " recomputed ("@
            + padded(n.fixed_of(n.over_of(n.times_of(Double { bits: HUNDRED },
            n.count_of(counts.1)), n.count_of(if counts.0 > 1 { counts.0 } else { 1 })), 1), 5,
            false) + "%)  ~"@ + n.fixed_of(n.over_of(n.count_of((counts.1 * fft_len) as usize),
            Double { bits: MILLION }), 0) + " Msamples"@,
    ]
}

/// Appends [`block_refresh_lines`].
pub fn block_refresh<N: Notation>(n: &N, b: usize, description: &str, fft_len: usize,
    counts: (usize, usize), page: &mut Page)
    requires
        counts.1 * fft_len <= usize::MAX,
        n.repeatable(),
    ensures
        final(page)@ == old(page)@ + block_refresh_lines(n, b, description@, fft_len, counts),
{
    let ghost before = page@;
    let mut line = "    block ".to_owned();
    push_padded(&mut line, decimal(b).as_str(), 2, false);
    line.append(" ");
    push_padded(&mut line, description, 30, true);
    line.append(" fft ");
    push_padded(&mut line, decimal(fft_len).as_str(), 7, false);
    line.append(": ");
    push_padded(&mut line, decimal(counts.0).as_str(), 8, false);
    line.append(" bounded ");
    push_padded(&mut line, decimal(counts.1).as_str(), 8, false);
    line.append(" recomputed (");
    push_padded(&mut line, n.fixed(n.over(n.times(Double { bits: HUNDRED }, n.count(counts.1)),
        n.count(if counts.0 > 1 { counts.0 } else { 1 })), 1).as_str(), 5, false);
    line.append("%)  ~");
    line.append(n.fixed(n.over(n.count((counts.1 * fft_len) as usize), Double { bits: MILLION }),
        0).as_str());
    line.append(" Msamples");
    page.push(line);
    assert(page@ =~= before + block_refresh_lines(n, b, description@, fft_len, counts));
}

/// A whole number in decimal.
fn decimal(k: usize) -> (r: String)
    ensures
        r@ == written(k as int),
{
    let mut text = "".to_owned();
    push_number(&mut text, k as u64);
    proof {
        reveal_strlit("");
        assert(text@ =~= written(k as int));
    }
    text
}

/// What is said of the level of what the decomposition could not explain: relative to the input first,
/// because that is the figure you act on. Levels are rms and peak, in dB.
pub open spec fn residual_levels_lines<N: Notation>(n: &N, residual: (Double, Double),
    signal: (Double, Double)) -> Seq<Seq<char>> {
    seq![
        "residual: "@ + n.signed_of(n.minus_of(residual.0, signal.0), 1) + " dB rms, "@
            + n.signed_of(n.minus_of(residual.1, signal.1), 1) + " dB peak relative to input"@,
        "  absolute: "@ + n.fixed_of(residual.0, 1) + " dBFS rms, "@ + n.fixed_of(residual.1, 1)
            + " dBFS peak (input "@ + n.fixed_of(signal.0, 1) + " dBFS rms, "@
            + n.fixed_of(signal.1, 1) + " dBFS peak)"@,
    ]
}

/// Appends [`residual_levels_lines`].
pub fn residual_levels<N: Notation>(n: &N, residual: (Double, Double), signal: (Double, Double),
    page: &mut Page)
    requires
        n.repeatable(),
    ensures
        final(page)@ == old(page)@ + residual_levels_lines(n, residual, signal),
{
    let ghost before = page@;
    let mut line = "residual: ".to_owned();
    line.append(n.signed(n.minus(residual.0, signal.0), 1).as_str());
    line.append(" dB rms, ");
    line.append(n.signed(n.minus(residual.1, signal.1), 1).as_str());
    line.append(" dB peak relative to input");
    page.push(line);
    let mut line = "  absolute: ".to_owned();
    line.append(n.fixed(residual.0, 1).as_str());
    line.append(" dBFS rms, ");
    line.append(n.fixed(residual.1, 1).as_str());
    line.append(" dBFS peak (input ");
    line.append(n.fixed(signal.0, 1).as_str());
    line.append(" dBFS rms, ");
    line.append(n.fixed(signal.1, 1).as_str());
    line.append(" dBFS peak)");
    page.push(line);
    assert(page@ =~= before + residual_levels_lines(n, residual, signal));
}

/// The smallest of the first `k` numbers, and infinity when there are none.
pub open spec fn smallest(xs: Seq<Double>, k: int) -> Double
    decreases k,
{
    if k <= 0 {
        Double { bits: INFINITY }
    } else {
        smallest(xs, k - 1).smaller(xs[k - 1])
    }
}

/// The shortest and the longest of a bank's time constants, in milliseconds.
pub open spec fn tau_range<N: Notation>(n: &N, taus: Seq<Double>) -> (Double, Double) {
    let k = taus.len() as int;
    (
        n.times_of(smallest(taus, k), Double { bits: THOUSAND }),
        n.times_of(crate::display::peak_of(taus, k), Double { bits: THOUSAND }),
    )
}

/// The shortest and the longest of a bank's time constants, in milliseconds.
pub fn tau_ends<N: Notation>(n: &N, taus: &[Double]) -> (r: (Double, Double))
    requires
        n.repeatable(),
    ensures
        r == tau_range(n, taus@),
{
    let mut lo = Double { bits: INFINITY };
    let mut hi = Double { bits: 0 };
    let mut i: usize = 0;
    while i < taus.len()
        invariant
            i <= taus@.len(),
            lo == smallest(taus@, i as int),
            hi == crate::display::peak_of(taus@, i as int),
        decreases taus@.len() - i,
    {
        lo = lo.min(taus[i]);
        hi = hi.max(taus[i]);
        i += 1;
    }
    (n.times(lo, Double { bits: THOUSAND }), n.times(hi, Double { bits: THOUSAND }))
}

/// What is said of the analysis of what is left over.
pub open spec fn residual_analysis_lines<N: Notation>(n: &N, rb: ResidualBook, elapsed: Seq<char>,
    sample_rate: Single) -> Seq<Seq<char>> {
    seq![
        "residual analysis: "@ + written(rb.band_count as int) + " ERB bands, "@
            + n.fixed_of(rb.bank.min_freq_hz, 1) + " .. "@ + n.fixed_of(rb.bank.max_freq_hz, 1)
            + " Hz, order "@ + written(rb.bank.filter_order as int) + " gammatone, in "@ + elapsed,
        "  update: "@ + written(rb.update_samples as int) + " samples / "@
            + n.fixed_of(n.over_of(n.times_of(n.count_of(rb.update_samples as usize), Double {
            bits: THOUSAND }), n.widen_of(sample_rate)), 3) + " ms -> "@
            + written(rb.frame_count as int) + " frames ("@ + written(rb.power@.len() as int)
            + " values)"@,
        "  power:  "@ + rb.bank.power_detector.mode.spelling() + ", tau "@ + n.fixed_of(tau_range(n,
            rb.bank.power_detector.tau_seconds@).0, 2) + " .. "@ + n.fixed_of(tau_range(n,
            rb.bank.power_detector.tau_seconds@).1, 2) + " ms"@,
    ]
}

/// Appends [`residual_analysis_lines`].
pub fn residual_analysis<N: Notation>(n: &N, rb: &ResidualBook, elapsed: &str, sample_rate: Single,
    page: &mut Page)
    requires
        n.repeatable(),
    ensures
        final(page)@ == old(page)@ + residual_analysis_lines(n, *rb, elapsed@, sample_rate),
{
    let ghost before = page@;
    let mut line = "residual analysis: ".to_owned();
    push_number(&mut line, rb.band_count as u64);
    line.append(" ERB bands, ");
    line.append(n.fixed(rb.bank.min_freq_hz, 1).as_str());
    line.append(" .. ");
    line.append(n.fixed(rb.bank.max_freq_hz, 1).as_str());
    line.append(" Hz, order ");
    push_number(&mut line, rb.bank.filter_order as u64);
    line.append(" gammatone, in ");
    line.append(elapsed);
    page.push(line);
    let mut line = "  update: ".to_owned();
    push_number(&mut line, rb.update_samples as u64);
    line.append(" samples / ");
    line.append(n.fixed(n.over(n.times(n.count(rb.update_samples as usize), Double { bits: THOUSAND
        }), n.widen(sample_rate)), 3).as_str());
    line.append(" ms -> ");
    push_number(&mut line, rb.frame_count as u64);
    line.append(" frames (");
    push_number(&mut line, rb.power.len() as u64);
    line.append(" values)");
    page.push(line);
    let mut line = "  power:  ".to_owned();
    line.append(rb.bank.power_detector.mode.as_str());
    line.append(", tau ");
    line.append(n.fixed(tau_ends(n, rb.bank.power_detector.tau_seconds.as_slice()).0, 2).as_str());
    line.append(" .. ");
    line.append(n.fixed(tau_ends(n, rb.bank.power_detector.tau_seconds.as_slice()).1, 2).as_str());
    line.append(" ms");
    page.push(line);
    assert(page@ =~= before + residual_analysis_lines(n, *rb, elapsed@, sample_rate));
}

/// What is said of one band, in detail.
pub open spec fn band_lines<N: Notation>(n: &N, b: usize, rb: ResidualBook) -> Seq<Seq<char>> {
    seq![
        "    "@ + padded(written(b as int), 4, false) + "  "@
            + padded(n.fixed_of(rb.bank.center_freq_hz@[b as int], 2), 10, false) + "  "@
            + padded(n.fixed_of(rb.bank.bandwidth_hz@[b as int], 2), 12, false) + "  "@
            + padded(n.fixed_of(n.times_of(rb.bank.power_detector.tau_seconds@[b as int], Double {
            bits: THOUSAND }), 2), 6, false) + "  "@
            + padded(n.exponent_of(rb.bank.normalization_gain@[b as int], 3), 10, false),
    ]
}

/// Appends [`band_lines`].
pub fn band<N: Notation>(n: &N, b: usize, rb: &ResidualBook, page: &mut Page)
    requires
        b < rb.bank.center_freq_hz@.len(),
        b < rb.bank.bandwidth_hz@.len(),
        b < rb.bank.power_detector.tau_seconds@.len(),
        b < rb.bank.normalization_gain@.len(),
        n.repeatable(),
    ensures
        final(page)@ == old(page)@ + band_lines(n, b, *rb),
{
    let ghost before = page@;
    let mut line = "    ".to_owned();
    push_padded(&mut line, decimal(b).as_str(), 4, false);
    line.append("  ");
    push_padded(&mut line, n.fixed(rb.bank.center_freq_hz[b], 2).as_str(), 10, false);
    line.append("  ");
    push_padded(&mut line, n.fixed(rb.bank.bandwidth_hz[b], 2).as_str(), 12, false);
    line.append("  ");
    push_padded(&mut line, n.fixed(n.times(rb.bank.power_detector.tau_seconds[b], Double {
        bits: THOUSAND }), 2).as_str(), 6, false);
    line.append("  ");
    push_padded(&mut line, n.exponent(rb.bank.normalization_gain[b], 3).as_str(), 10, false);
    page.push(line);
    assert(page@ =~= before + band_lines(n, b, *rb));
}

} // verus!
