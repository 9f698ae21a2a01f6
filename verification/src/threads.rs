//! Running on the cores that make an analysis faster, which is not all of them.
//!
//! The parallel stages are memory-bound, so past the physical performance cores each thread added
//! slows the others more than it contributes. The default pool is therefore one thread per physical
//! core of the fastest class, its workers kept to that class's CPUs. None of it can change a result:
//! every parallel stage is bit-identical at any thread count and on any core.
//!
//! The CPUs a process may run on come from its status file, a CPU's physical core from the list of its
//! siblings, and its class from its capacity or its highest frequency, whichever actually tells the
//! CPUs apart. A CPU within a tenth of the fastest counts as fast.

use crate::text::{
    after_prefix, begins, chars_of, next_at, number, parse_number, parts, push_number, split,
    text_of, trim, trimmed, written,
};
use vstd::prelude::*;

verus! {

/// One schedulable CPU as detection sees it.
#[derive(Debug)]
pub struct Cpu {
    /// The CPU number the kernel uses.
    pub id: usize,
    /// Identifies the physical core; hyperthread siblings share it.
    pub core: String,
    /// Its capacity, where the kernel provides one.
    pub capacity: Option<u64>,
    /// Its highest frequency, where the kernel provides one.
    pub max_freq: Option<u64>,
}

/// What was read about a CPU, as text.
#[derive(Debug)]
pub struct Reading {
    pub id: usize,
    /// The CPUs of its core, under either of the names kernels give the list.
    pub core_cpus: Option<String>,
    pub thread_siblings: Option<String>,
    pub capacity: Option<String>,
    pub max_freq: Option<String>,
}

/// Workers in the pool the caller runs on.
///
/// `rayon::current_num_threads`. How many that is depends on the machine and on how the pool was
/// built, so nothing is claimed of it.
#[verifier::external_body]
pub(crate) fn pool_size() -> (r: usize) {
    rayon::current_num_threads()
}

// ---------------------------------------------------------------------------------------------
// reading the kernel's lists
// ---------------------------------------------------------------------------------------------

/// `a` up to and including `b`.
pub open spec fn span(a: int, b: int) -> Seq<usize> {
    if a > b {
        seq![]
    } else {
        Seq::new((b - a + 1) as nat, |i: int| (a + i) as usize)
    }
}

/// The CPUs one part of a list names: a number, or two with a dash between. `None` if it is
/// malformed.
pub open spec fn part_cpus(part: Seq<char>) -> Option<Seq<usize>> {
    let dash = next_at(part, '-', 0);
    if dash >= part.len() {
        match number(part, usize::MAX as int) {
            Some(n) => Some(seq![n as usize]),
            None => None,
        }
    } else {
        match (
            number(part.take(dash), usize::MAX as int),
            number(part.skip(dash + 1), usize::MAX as int),
        ) {
            (Some(a), Some(b)) => if a > b {
                None
            } else {
                Some(span(a, b))
            },
            _ => None,
        }
    }
}

/// The CPUs the first `n` parts of a list name. Empty parts name none.
pub open spec fn listed(list: Seq<Seq<char>>, n: int) -> Option<Seq<usize>>
    decreases n,
{
    if n <= 0 {
        Some(seq![])
    } else {
        match listed(list, n - 1) {
            None => None,
            Some(ids) => {
                let part = trimmed(list[n - 1]);
                if part.len() == 0 {
                    Some(ids)
                } else {
                    match part_cpus(part) {
                        None => None,
                        Some(more) => Some(ids + more),
                    }
                }
            },
        }
    }
}

/// The CPUs a kernel list names, in its order.
pub open spec fn cpu_list(list: Seq<char>) -> Option<Seq<usize>> {
    let ps = parts(list, ',');
    listed(ps, ps.len() as int)
}

/// A malformed part spoils the list.
proof fn lemma_spoiled(list: Seq<Seq<char>>, m: int, n: int)
    requires
        0 <= m <= n,
        listed(list, m) is None,
    ensures
        listed(list, n) is None,
    decreases n,
{
    if m < n {
        lemma_spoiled(list, m, n - 1);
    }
}

fn parse_usize(cs: &[char]) -> (r: Option<usize>)
    ensures
        match r {
            Some(n) => number(cs@, usize::MAX as int) == Some(n as int),
            None => number(cs@, usize::MAX as int) is None,
        },
{
    match parse_number(cs, usize::MAX as u64) {
        Some(n) => Some(n as usize),
        None => None,
    }
}

fn parse_part(part: &[char]) -> (r: Option<Vec<usize>>)
    ensures
        match r {
            Some(ids) => part_cpus(part@) == Some(ids@),
            None => part_cpus(part@) is None,
        },
{
    let dash: usize = crate::text::find(part, '-', 0);
    let mut out: Vec<usize> = Vec::new();
    if dash >= part.len() {
        match parse_usize(part) {
            Some(n) => {
                out.push(n);
                assert(out@ =~= seq![n]);
                return Some(out);
            },
            None => {
                return None;
            },
        }
    }
    let head = vstd::slice::slice_subrange(part, 0, dash);
    let tail = vstd::slice::slice_subrange(part, dash + 1, part.len());
    assert(head@ =~= part@.take(dash as int));
    assert(tail@ =~= part@.skip(dash + 1));
    let (a, b) = match (parse_usize(head), parse_usize(tail)) {
        (Some(a), Some(b)) => (a, b),
        _ => {
            return None;
        },
    };
    if a > b {
        return None;
    }
    let mut n: usize = a;
    while n < b
        invariant
            a <= n <= b,
            out@.len() == n - a,
            forall|i: int| 0 <= i < out@.len() ==> #[trigger] out@[i] == a + i,
        decreases b - n,
    {
        out.push(n);
        n += 1;
    }
    out.push(b);
    assert(out@ =~= span(a as int, b as int));
    Some(out)
}

/// Parse a kernel CPU list such as `0-3,8,10-11`. `None` if any part is malformed.
pub fn parse_cpu_list(list: &str) -> (r: Option<Vec<usize>>)
    ensures
        match r {
            Some(ids) => cpu_list(list@) == Some(ids@),
            None => cpu_list(list@) is None,
        },
{
    let chars = chars_of(list);
    let pieces = split(chars.as_slice(), ',');
    let ghost all = parts(list@, ',');
    let mut out: Vec<usize> = Vec::new();
    let mut i: usize = 0;
    while i < pieces.len()
        invariant
            i <= pieces@.len(),
            all == parts(list@, ','),
            pieces@.len() == all.len(),
            forall|i: int| 0 <= i < pieces@.len() ==> (#[trigger] pieces@[i])@ == all[i],
            listed(all, i as int) == Some(out@),
        decreases pieces@.len() - i,
    {
        let part = trim(pieces[i]);
        assert(part@ == trimmed(all[i as int]));
        if part.len() > 0 {
            match parse_part(part) {
                Some(ids) => {
                    let mut more = ids;
                    out.append(&mut more);
                },
                None => {
                    proof {
                        assert(listed(all, i + 1) is None);
                        lemma_spoiled(all, i + 1, all.len() as int);
                    }
                    return None;
                },
            }
        }
        i += 1;
    }
    Some(out)
}

/// The first of the first `n` lines to begin with `prefix`.
pub open spec fn line_with(lines: Seq<Seq<char>>, prefix: Seq<char>, n: int) -> Option<Seq<char>>
    decreases n,
{
    if n <= 0 {
        None
    } else {
        match line_with(lines, prefix, n - 1) {
            Some(l) => Some(l),
            None => if begins(lines[n - 1], prefix) {
                Some(lines[n - 1].skip(prefix.len() as int))
            } else {
                None
            },
        }
    }
}

/// An early line stays the first.
proof fn lemma_first_line(lines: Seq<Seq<char>>, prefix: Seq<char>, m: int, n: int)
    requires
        0 <= m <= n,
        line_with(lines, prefix, m) is Some,
    ensures
        line_with(lines, prefix, n) == line_with(lines, prefix, m),
    decreases n,
{
    if m < n {
        lemma_first_line(lines, prefix, m, n - 1);
    }
}

/// The CPUs a status file lets the process run on.
pub open spec fn allowed(status: Seq<char>) -> Option<Seq<usize>> {
    let lines = parts(status, '\n');
    match line_with(lines, "Cpus_allowed_list:"@, lines.len() as int) {
        Some(list) => cpu_list(trimmed(list)),
        None => None,
    }
}

/// The CPUs a process may run on, from its status file. `None` if that cannot be told.
pub fn allowed_cpus(status: &str) -> (r: Option<Vec<usize>>)
    ensures
        match r {
            Some(ids) => allowed(status@) == Some(ids@),
            None => allowed(status@) is None,
        },
{
    let chars = chars_of(status);
    let lines = split(chars.as_slice(), '\n');
    let ghost all = parts(status@, '\n');
    let ghost prefix = "Cpus_allowed_list:"@;
    let mut i: usize = 0;
    while i < lines.len()
        invariant
            i <= lines@.len(),
            all == parts(status@, '\n'),
            prefix == "Cpus_allowed_list:"@,
            lines@.len() == all.len(),
            forall|i: int| 0 <= i < lines@.len() ==> (#[trigger] lines@[i])@ == all[i],
            line_with(all, prefix, i as int) is None,
        decreases lines@.len() - i,
    {
        match after_prefix(lines[i], "Cpus_allowed_list:") {
            Some(rest) => {
                proof {
                    assert(line_with(all, prefix, i + 1) == Some(rest@));
                    lemma_first_line(all, prefix, i + 1, all.len() as int);
                }
                let list = text_of(trim(rest));
                return parse_cpu_list(list.as_str());
            },
            None => {},
        }
        i += 1;
    }
    None
}

/// A number the kernel wrote, where there is one.
pub open spec fn reading_number(text: Option<Seq<char>>) -> Option<int> {
    match text {
        Some(s) => number(trimmed(s), u64::MAX as int),
        None => None,
    }
}

pub open spec fn text_view(s: Option<String>) -> Option<Seq<char>> {
    match s {
        Some(t) => Some(t@),
        None => None,
    }
}

fn parse_reading(text: &Option<String>) -> (r: Option<u64>)
    ensures
        match r {
            Some(n) => reading_number(text_view(*text)) == Some(n as int),
            None => reading_number(text_view(*text)) is None,
        },
{
    match text {
        Some(s) => {
            let chars = chars_of(s.as_str());
            parse_number(trim(chars.as_slice()), u64::MAX)
        },
        None => None,
    }
}

/// The name of a CPU's core: its siblings' list, or its own number where no list was read.
pub open spec fn core_name(r: Reading) -> Seq<char> {
    match (r.core_cpus, r.thread_siblings) {
        (Some(s), _) => trimmed(s@),
        (None, Some(s)) => trimmed(s@),
        (None, None) => written(r.id as int),
    }
}

/// A CPU, from what was read about it.
pub fn cpu_from(reading: &Reading) -> (r: Cpu)
    ensures
        r.id == reading.id,
        r.core@ == core_name(*reading),
        match r.capacity {
            Some(n) => reading_number(text_view(reading.capacity)) == Some(n as int),
            None => reading_number(text_view(reading.capacity)) is None,
        },
        match r.max_freq {
            Some(n) => reading_number(text_view(reading.max_freq)) == Some(n as int),
            None => reading_number(text_view(reading.max_freq)) is None,
        },
{
    let core = match (&reading.core_cpus, &reading.thread_siblings) {
        (Some(s), _) => {
            let chars = chars_of(s.as_str());
            text_of(trim(chars.as_slice()))
        },
        (None, Some(s)) => {
            let chars = chars_of(s.as_str());
            text_of(trim(chars.as_slice()))
        },
        (None, None) => {
            let mut out = String::new();
            push_number(&mut out, reading.id as u64);
            assert(out@ =~= written(reading.id as int));
            out
        },
    };
    Cpu {
        id: reading.id,
        core,
        capacity: parse_reading(&reading.capacity),
        max_freq: parse_reading(&reading.max_freq),
    }
}

// ---------------------------------------------------------------------------------------------
// the fast cores
// ---------------------------------------------------------------------------------------------

pub open spec fn capacities(cpus: Seq<Cpu>) -> Seq<Option<u64>> {
    Seq::new(cpus.len(), |i: int| cpus[i].capacity)
}

pub open spec fn frequencies(cpus: Seq<Cpu>) -> Seq<Option<u64>> {
    Seq::new(cpus.len(), |i: int| cpus[i].max_freq)
}

/// A measure every CPU has, and not all to the same value.
pub open spec fn tells_apart(m: Seq<Option<u64>>) -> bool {
    &&& forall|i: int| 0 <= i < m.len() ==> (#[trigger] m[i]) is Some
    &&& exists|i: int| 0 <= i < m.len() && #[trigger] m[i] != m[0]
}

/// A CPU's speed: its capacity where that differs between CPUs, otherwise its frequency, otherwise the
/// same for all.
pub open spec fn speed(cpus: Seq<Cpu>, i: int) -> int {
    if tells_apart(capacities(cpus)) {
        cpus[i].capacity->0 as int
    } else if tells_apart(frequencies(cpus)) {
        cpus[i].max_freq->0 as int
    } else {
        1
    }
}

/// A CPU no more than a tenth slower than any other.
pub open spec fn fast(cpus: Seq<Cpu>, i: int) -> bool {
    forall|j: int| 0 <= j < cpus.len() ==> 9 * #[trigger] speed(cpus, j) <= 10 * speed(cpus, i)
}

/// The CPUs that share a physical core, under its name.
pub struct Core {
    pub name: String,
    pub ids: Vec<usize>,
}

/// Where a core stands among others, or their count.
pub open spec fn core_at(cores: Seq<(Seq<char>, Seq<usize>)>, name: Seq<char>, from: int) -> int
    decreases cores.len() - from,
{
    if from >= cores.len() || cores[from].0 == name {
        from
    } else {
        core_at(cores, name, from + 1)
    }
}

/// One more CPU, with its siblings if they have been seen, on a core of its own if not.
pub open spec fn seated(
    cores: Seq<(Seq<char>, Seq<usize>)>,
    name: Seq<char>,
    id: usize,
) -> Seq<(Seq<char>, Seq<usize>)> {
    let at = core_at(cores, name, 0);
    if at < cores.len() {
        cores.update(at, (cores[at].0, cores[at].1.push(id)))
    } else {
        cores.push((name, seq![id]))
    }
}

/// The fast ones of the first `n` CPUs, grouped by physical core, in first-seen order.
pub open spec fn grouped(cpus: Seq<Cpu>, n: int) -> Seq<(Seq<char>, Seq<usize>)>
    decreases n,
{
    if n <= 0 {
        seq![]
    } else if fast(cpus, n - 1) {
        seated(grouped(cpus, n - 1), cpus[n - 1].core@, cpus[n - 1].id)
    } else {
        grouped(cpus, n - 1)
    }
}

/// The groups, as a list of lists.
pub open spec fn are_groups(r: Seq<Vec<usize>>, g: Seq<(Seq<char>, Seq<usize>)>) -> bool {
    &&& r.len() == g.len()
    &&& forall|i: int| 0 <= i < r.len() ==> (#[trigger] r[i])@ == g[i].1
}

fn all_tell(m: &[Option<u64>]) -> (r: bool)
    ensures
        r == tells_apart(m@),
{
    let mut differs = false;
    let mut i: usize = 0;
    while i < m.len()
        invariant
            i <= m@.len(),
            forall|j: int| 0 <= j < i ==> (#[trigger] m@[j]) is Some,
            differs == (exists|j: int| 0 <= j < i && #[trigger] m@[j] != m@[0]),
        decreases m@.len() - i,
    {
        match (m[i], m[0]) {
            (Some(x), Some(y)) => {
                if x != y {
                    differs = true;
                }
            },
            (None, _) => {
                assert(m@[i as int] is None);
                return false;
            },
            (_, None) => {
                assert(m@[0] is None);
                return false;
            },
        }
        i += 1;
    }
    differs
}

/// Every CPU's speed.
fn speeds_of(cpus: &[Cpu]) -> (r: Vec<u64>)
    ensures
        r@.len() == cpus@.len(),
        forall|i: int| 0 <= i < r@.len() ==> #[trigger] r@[i] == speed(cpus@, i),
{
    let mut caps: Vec<Option<u64>> = Vec::new();
    let mut freqs: Vec<Option<u64>> = Vec::new();
    let mut i: usize = 0;
    while i < cpus.len()
        invariant
            i <= cpus@.len(),
            caps@ == capacities(cpus@).take(i as int),
            freqs@ == frequencies(cpus@).take(i as int),
        decreases cpus@.len() - i,
    {
        caps.push(cpus[i].capacity);
        freqs.push(cpus[i].max_freq);
        proof {
            assert(capacities(cpus@).take(i + 1) =~= capacities(cpus@).take(i as int).push(
                cpus@[i as int].capacity,
            ));
            assert(frequencies(cpus@).take(i + 1) =~= frequencies(cpus@).take(i as int).push(
                cpus@[i as int].max_freq,
            ));
        }
        i += 1;
    }
    assert(caps@ =~= capacities(cpus@));
    assert(freqs@ =~= frequencies(cpus@));
    let by_capacity = all_tell(caps.as_slice());
    let by_frequency = all_tell(freqs.as_slice());
    let mut out: Vec<u64> = Vec::new();
    let mut i: usize = 0;
    while i < cpus.len()
        invariant
            i <= cpus@.len(),
            caps@ == capacities(cpus@),
            freqs@ == frequencies(cpus@),
            by_capacity == tells_apart(caps@),
            by_frequency == tells_apart(freqs@),
            out@.len() == i,
            forall|j: int| 0 <= j < i ==> #[trigger] out@[j] == speed(cpus@, j),
        decreases cpus@.len() - i,
    {
        let v: u64 = if by_capacity {
            assert(caps@[i as int] is Some);
            caps[i].unwrap()
        } else if by_frequency {
            assert(freqs@[i as int] is Some);
            freqs[i].unwrap()
        } else {
            1
        };
        out.push(v);
        i += 1;
    }
    out
}

/// The CPUs within a tenth of the fastest, grouped by physical core, in first-seen order.
pub fn group_fast_cores(cpus: &[Cpu]) -> (r: Vec<Vec<usize>>)
    ensures
        are_groups(r@, grouped(cpus@, cpus@.len() as int)),
{
    let speeds = speeds_of(cpus);
    let mut fastest: u64 = 0;
    let mut i: usize = 0;
    while i < speeds.len()
        invariant
            i <= speeds@.len(),
            forall|j: int| 0 <= j < i ==> #[trigger] speeds@[j] <= fastest,
            i == 0 || exists|j: int| 0 <= j < i && #[trigger] speeds@[j] == fastest,
        decreases speeds@.len() - i,
    {
        if i == 0 || speeds[i] > fastest {
            fastest = speeds[i];
            assert(speeds@[i as int] == fastest);
        }
        i += 1;
    }
    let mut cores: Vec<Core> = Vec::new();
    let ghost mut seen: Seq<(Seq<char>, Seq<usize>)> = seq![];
    let mut i: usize = 0;
    while i < cpus.len()
        invariant
            i <= cpus@.len(),
            speeds@.len() == cpus@.len(),
            forall|j: int| 0 <= j < speeds@.len() ==> #[trigger] speeds@[j] == speed(cpus@, j),
            forall|j: int| 0 <= j < speeds@.len() ==> #[trigger] speeds@[j] <= fastest,
            cpus@.len() == 0 || exists|j: int|
                0 <= j < speeds@.len() && #[trigger] speeds@[j] == fastest,
            seen == grouped(cpus@, i as int),
            cores@.len() == seen.len(),
            forall|g: int|
                0 <= g < cores@.len() ==> (#[trigger] cores@[g]).name@ == seen[g].0,
            forall|g: int|
                0 <= g < cores@.len() ==> (#[trigger] cores@[g]).ids@ == seen[g].1,
        decreases cpus@.len() - i,
    {
        proof {
            let top = choose|j: int| 0 <= j < speeds@.len() && #[trigger] speeds@[j] == fastest;
            assert(speed(cpus@, top) == fastest);
            assert(speed(cpus@, i as int) == speeds@[i as int]);
            if 9 * fastest <= 10 * speeds@[i as int] {
                assert forall|j: int| 0 <= j < cpus@.len() implies 9 * #[trigger] speed(cpus@, j)
                    <= 10 * speed(cpus@, i as int) by {
                    assert(speeds@[j] == speed(cpus@, j));
                }
                assert(fast(cpus@, i as int));
            } else {
                assert(!fast(cpus@, i as int));
            }
        }
        if speeds[i] as u128 * 10 >= fastest as u128 * 9 {
            let mut g: usize = 0;
            while g < cores.len() && !(cores[g].name == cpus[i].core)
                invariant
                    i < cpus@.len(),
                    g <= cores@.len(),
                    cores@.len() == seen.len(),
                    forall|g: int|
                        0 <= g < cores@.len() ==> (#[trigger] cores@[g]).name@ == seen[g].0,
                    core_at(seen, cpus@[i as int].core@, 0) == core_at(
                        seen,
                        cpus@[i as int].core@,
                        g as int,
                    ),
                decreases cores@.len() - g,
            {
                g += 1;
            }
            let ghost before = cores@;
            if g < cores.len() {
                let core = &mut cores[g];
                core.ids.push(cpus[i].id);
                assert(cores@ =~= before.update(g as int, cores@[g as int]));
            } else {
                let mut ids: Vec<usize> = Vec::new();
                ids.push(cpus[i].id);
                assert(ids@ =~= seq![cpus@[i as int].id]);
                cores.push(Core { name: cpus[i].core.clone(), ids });
            }
            proof {
                seen = seated(seen, cpus@[i as int].core@, cpus@[i as int].id);
            }
        }
        i += 1;
    }
    let mut out: Vec<Vec<usize>> = Vec::new();
    let mut i: usize = 0;
    while i < cores.len()
        invariant
            i <= cores@.len(),
            cores@.len() == seen.len(),
            forall|g: int|
                0 <= g < cores@.len() ==> (#[trigger] cores@[g]).ids@ == seen[g].1,
            out@.len() == i,
            forall|g: int| 0 <= g < i ==> (#[trigger] out@[g])@ == seen[g].1,
        decreases cores@.len() - i,
    {
        out.push(cores[i].ids.clone());
        assert(out@[i as int]@ =~= cores@[i as int].ids@);
        i += 1;
    }
    out
}

/// The CPUs read about, as detection sees them.
pub open spec fn are_cpus(cpus: Seq<Cpu>, readings: Seq<Reading>) -> bool {
    &&& cpus.len() == readings.len()
    &&& forall|i: int|
        0 <= i < cpus.len() ==> {
            &&& (#[trigger] cpus[i]).id == readings[i].id
            &&& cpus[i].core@ == core_name(readings[i])
            &&& cpus[i].capacity == (match reading_number(text_view(readings[i].capacity)) {
                Some(n) => Some(n as u64),
                None => None,
            })
            &&& cpus[i].max_freq == (match reading_number(text_view(readings[i].max_freq)) {
                Some(n) => Some(n as u64),
                None => None,
            })
        }
}

/// The CPUs of each fast physical core, from what was read about the CPUs the process may run on.
/// `None` if there are none.
pub fn fast_cores(readings: &[Reading]) -> (r: Option<Vec<Vec<usize>>>)
    ensures
        exists|cpus: Seq<Cpu>|
            {
                let g = grouped(cpus, cpus.len() as int);
                &&& #[trigger] are_cpus(cpus, readings@)
                &&& match r {
                    Some(cores) => g.len() > 0 && are_groups(cores@, g),
                    None => g.len() == 0,
                }
            },
{
    let mut cpus: Vec<Cpu> = Vec::new();
    let mut i: usize = 0;
    while i < readings.len()
        invariant
            i <= readings@.len(),
            are_cpus(cpus@, readings@.take(i as int)),
        decreases readings@.len() - i,
    {
        cpus.push(cpu_from(&readings[i]));
        i += 1;
    }
    assert(readings@.take(readings@.len() as int) =~= readings@);
    let cores = group_fast_cores(cpus.as_slice());
    assert(are_cpus(cpus@, readings@));
    if cores.len() == 0 {
        None
    } else {
        Some(cores)
    }
}

/// Physical cores of the fastest class among the CPUs this process may run on, if that can be told.
pub fn fast_physical_cores(cores: &Option<Vec<Vec<usize>>>) -> (r: Option<usize>)
    ensures
        r == match *cores {
            Some(c) => Some(c@.len() as usize),
            None => None,
        },
{
    match cores {
        Some(c) => Some(c.len()),
        None => None,
    }
}

// ---------------------------------------------------------------------------------------------
// what to do with them
// ---------------------------------------------------------------------------------------------

/// The CPUs of the first `n` cores, end to end.
pub open spec fn joined(cores: Seq<Vec<usize>>, n: int) -> Seq<usize>
    decreases n,
{
    if n <= 0 {
        seq![]
    } else {
        joined(cores, n - 1) + cores[n - 1]@
    }
}

fn join(cores: &[Vec<usize>]) -> (r: Vec<usize>)
    ensures
        r@ == joined(cores@, cores@.len() as int),
{
    let mut out: Vec<usize> = Vec::new();
    let mut i: usize = 0;
    while i < cores.len()
        invariant
            i <= cores@.len(),
            out@ == joined(cores@, i as int),
        decreases cores@.len() - i,
    {
        let mut ids = cores[i].clone();
        assert(ids@ =~= cores@[i as int]@);
        out.append(&mut ids);
        i += 1;
    }
    out
}

/// The count of threads is the caller's business: the variable that sets it is there, and not empty.
pub fn overridden(variable: &Option<String>) -> (r: bool)
    ensures
        r == (variable matches Some(v) && v@.len() > 0),
{
    match variable {
        Some(v) => !v.as_str().is_empty(),
        None => false,
    }
}

/// The CPUs to keep a thread that drives an analysis on, if it is to be kept anywhere.
pub fn prefer_fast_cores(overridden: bool, cores: &Option<Vec<Vec<usize>>>) -> (r: Option<Vec<usize>>)
    ensures
        match r {
            Some(cpus) => !overridden && (cores matches Some(c) && cpus@ == joined(
                c@,
                c@.len() as int,
            )),
            None => overridden || cores is None,
        },
{
    if overridden {
        return None;
    }
    match cores {
        Some(c) => Some(join(c.as_slice())),
        None => None,
    }
}

/// The pool to build: a thread per fast physical core, kept to those cores' CPUs. `None` leaves the
/// pool as it is.
pub fn configure_pool(overridden: bool, cores: &Option<Vec<Vec<usize>>>) -> (r: Option<
    (usize, Vec<usize>),
>)
    ensures
        match r {
            Some((threads, cpus)) => !overridden && (cores matches Some(c) && threads == c@.len()
                && cpus@ == joined(c@, c@.len() as int)),
            None => overridden || cores is None,
        },
{
    if overridden {
        return None;
    }
    match cores {
        Some(c) => Some((c.len(), join(c.as_slice()))),
        None => None,
    }
}

/// The CPUs an affinity mask of `capacity` bits can name, of those wanted.
pub fn restrict_to(cpus: &[usize], capacity: usize) -> (r: Vec<usize>)
    ensures
        r@ == cpus@.filter(|c: usize| c < capacity),
{
    let mut out: Vec<usize> = Vec::new();
    let mut i: usize = 0;
    while i < cpus.len()
        invariant
            i <= cpus@.len(),
            out@ == cpus@.take(i as int).filter(|c: usize| c < capacity),
        decreases cpus@.len() - i,
    {
        let c: usize = cpus[i];
        proof {
            reveal(Seq::filter);
            assert(cpus@.take(i + 1).drop_last() =~= cpus@.take(i as int));
        }
        if c < capacity {
            out.push(c);
        }
        i += 1;
    }
    assert(cpus@.take(cpus@.len() as int) =~= cpus@);
    out
}

// ---------------------------------------------------------------------------------------------
// laws
// ---------------------------------------------------------------------------------------------

/// Every group is a core of its own, and holds at least one CPU.
pub proof fn law_cores_are_told_apart(cpus: Seq<Cpu>, n: int)
    requires
        0 <= n <= cpus.len(),
    ensures
        forall|g: int, h: int|
            0 <= g < h < grouped(cpus, n).len() ==> (#[trigger] grouped(cpus, n)[g]).0 != (
            #[trigger] grouped(cpus, n)[h]).0,
        forall|g: int|
            0 <= g < grouped(cpus, n).len() ==> (#[trigger] grouped(cpus, n)[g]).1.len() > 0,
    decreases n,
{
    if n > 0 {
        law_cores_are_told_apart(cpus, n - 1);
        let before = grouped(cpus, n - 1);
        let name = cpus[n - 1].core@;
        lemma_core_at(before, name, 0);
    }
}

proof fn lemma_core_at(cores: Seq<(Seq<char>, Seq<usize>)>, name: Seq<char>, from: int)
    requires
        0 <= from <= cores.len(),
    ensures
        from <= core_at(cores, name, from) <= cores.len(),
        forall|g: int| from <= g < core_at(cores, name, from) ==> (#[trigger] cores[g]).0 != name,
        core_at(cores, name, from) < cores.len() ==> cores[core_at(cores, name, from)].0 == name,
    decreases cores.len() - from,
{
    if from < cores.len() && cores[from].0 != name {
        lemma_core_at(cores, name, from + 1);
    }
}

/// Some CPU is the fastest, so wherever there are CPUs there are fast cores.
pub proof fn law_some_core_is_fast(cpus: Seq<Cpu>)
    requires
        cpus.len() > 0,
    ensures
        grouped(cpus, cpus.len() as int).len() > 0,
{
    let top = lemma_fastest(cpus, cpus.len() as int);
    assert(fast(cpus, top)) by {
        assert forall|j: int| 0 <= j < cpus.len() implies 9 * #[trigger] speed(cpus, j) <= 10
            * speed(cpus, top) by {
            lemma_speed_is_not_negative(cpus, j);
        }
    }
    lemma_seated_stays(cpus, top + 1, cpus.len() as int);
}

proof fn lemma_speed_is_not_negative(cpus: Seq<Cpu>, j: int)
    ensures
        speed(cpus, j) >= 0,
{
}

proof fn lemma_fastest(cpus: Seq<Cpu>, n: int) -> (top: int)
    requires
        0 < n <= cpus.len(),
    ensures
        0 <= top < n,
        forall|j: int| 0 <= j < n ==> #[trigger] speed(cpus, j) <= speed(cpus, top),
    decreases n,
{
    if n == 1 {
        0
    } else {
        let t = lemma_fastest(cpus, n - 1);
        if speed(cpus, n - 1) > speed(cpus, t) {
            n - 1
        } else {
            t
        }
    }
}

proof fn lemma_seated_stays(cpus: Seq<Cpu>, m: int, n: int)
    requires
        0 < m <= n <= cpus.len(),
        fast(cpus, m - 1),
    ensures
        grouped(cpus, n).len() > 0,
    decreases n,
{
    lemma_core_at(grouped(cpus, n - 1), cpus[n - 1].core@, 0);
    if m < n {
        lemma_seated_stays(cpus, m, n - 1);
    }
}

} // verus!
