//! Taking an atom out of a residual.

use crate::ieee::{Double, Single};
use crate::reals::Reals;
use crate::rounding::{lemma_fewer, lemma_one_more, lemma_square_above, near, size, steady};
use vstd::prelude::*;

verus! {

/// Where a rendered atom and a residual overlap.
#[derive(Clone, Copy, Debug, PartialEq, Eq, Structural)]
pub struct Overlap {
    /// First sample of the atom inside the residual.
    pub skip: usize,
    /// Where that sample lands in the residual.
    pub tau: usize,
    /// Samples they share.
    pub len: usize,
}

/// Sample `t` of the residual is under an atom of `atom_len` samples that starts at `t0`.
pub open spec fn under(t: int, residual_len: int, atom_len: int, t0: int) -> bool {
    0 <= t < residual_len && t0 <= t < t0 + atom_len
}

/// Where an atom that starts at `t0` overlaps a residual, or `None` where it does not.
pub open spec fn overlap_of(residual_len: int, atom_len: int, t0: int) -> Option<Overlap> {
    let skip = if t0 < 0 {
        -t0
    } else {
        0
    };
    let tau = if t0 < 0 {
        0
    } else {
        t0
    };
    if skip >= atom_len || tau >= residual_len {
        None
    } else {
        Some(
            Overlap {
                skip: skip as usize,
                tau: tau as usize,
                len: (if atom_len - skip < residual_len - tau {
                    atom_len - skip
                } else {
                    residual_len - tau
                }) as usize,
            },
        )
    }
}

/// An overlap is exactly the samples the two share.
pub proof fn law_the_overlap_is_what_is_shared(residual_len: int, atom_len: int, t0: int)
    requires
        0 <= residual_len <= usize::MAX,
        0 <= atom_len <= usize::MAX,
    ensures
        match overlap_of(residual_len, atom_len, t0) {
            Some(o) => {
                &&& o.len > 0
                &&& o.tau - o.skip == t0
                &&& o.skip + o.len <= atom_len
                &&& o.tau + o.len <= residual_len
                &&& forall|t: int|
                    o.tau <= t < o.tau + o.len <==> #[trigger] under(t, residual_len, atom_len, t0)
            },
            None => forall|t: int| !#[trigger] under(t, residual_len, atom_len, t0),
        },
{
}

/// Where an atom that starts at `t0` overlaps a residual, or `None` where it does not.
pub fn overlap(residual_len: usize, atom_len: usize, t0: i64) -> (r: Option<Overlap>)
    ensures
        r == overlap_of(residual_len as int, atom_len as int, t0 as int),
{
    let skip: i128 = if t0 < 0 {
        -(t0 as i128)
    } else {
        0
    };
    let tau: i128 = if t0 < 0 {
        0
    } else {
        t0 as i128
    };
    if skip >= atom_len as i128 || tau >= residual_len as i128 {
        return None;
    }
    let skip: usize = skip as usize;
    let tau: usize = tau as usize;
    let len: usize = if atom_len - skip < residual_len - tau {
        atom_len - skip
    } else {
        residual_len - tau
    };
    Some(Overlap { skip, tau, len })
}

/// A residual's energies: over all of it, and over the leading range a pursuit selects from.
#[derive(Clone, Copy, Debug, PartialEq, Eq, Structural)]
pub struct Energies {
    pub whole: Double,
    pub core: Double,
}

/// Sample `i` of an overlap, once the atom is taken out.
pub open spec fn left_at<R: Reals>(
    r: &R,
    residual: Seq<Single>,
    atom: Seq<Single>,
    o: Overlap,
    i: int,
) -> Single {
    r.minus_single_of(residual[o.tau + i], atom[o.skip + i])
}

/// What replacing a sample adds to an energy.
pub open spec fn change<R: Reals>(r: &R, before: Single, after: Single) -> Double {
    let (x, y) = (r.widen_of(before), r.widen_of(after));
    r.minus_of(r.times_of(y, y), r.times_of(x, x))
}

/// The energies once the first `n` samples of an overlap are taken out.
pub open spec fn energies_after<R: Reals>(
    r: &R,
    residual: Seq<Single>,
    atom: Seq<Single>,
    o: Overlap,
    core_len: int,
    e: Energies,
    n: int,
) -> Energies
    decreases n,
{
    if n <= 0 {
        e
    } else {
        let rest = energies_after(r, residual, atom, o, core_len, e, n - 1);
        let moved = change(r, residual[o.tau + n - 1], left_at(r, residual, atom, o, n - 1));
        Energies {
            whole: r.plus_of(rest.whole, moved),
            core: if o.tau + n - 1 < core_len {
                r.plus_of(rest.core, moved)
            } else {
                rest.core
            },
        }
    }
}

/// Take an atom out of a residual where they overlap, and keep the residual's energies with it.
pub fn subtract<R: Reals>(
    r: &R,
    residual: &mut Vec<Single>,
    atom: &[Single],
    o: Overlap,
    core_len: usize,
    e: Energies,
) -> (answer: Energies)
    requires
        r.repeatable(),
        o.skip + o.len <= atom@.len(),
        o.tau + o.len <= old(residual)@.len(),
    ensures
        answer == energies_after(
            r,
            old(residual)@,
            atom@,
            o,
            core_len as int,
            e,
            o.len as int,
        ),
        final(residual)@.len() == old(residual)@.len(),
        forall|t: int|
            0 <= t < old(residual)@.len() ==> #[trigger] final(residual)@[t] == if o.tau <= t < o.tau
                + o.len {
                left_at(r, old(residual)@, atom@, o, t - o.tau)
            } else {
                old(residual)@[t]
            },
{
    let ghost before = residual@;
    let whole: usize = residual.len();
    let drawn: usize = atom.len();
    let mut sum = e;
    let mut i: usize = 0;
    while i < o.len
        invariant
            r.repeatable(),
            i <= o.len,
            whole == before.len(),
            drawn == atom@.len(),
            o.skip + o.len <= atom@.len(),
            o.tau + o.len <= before.len(),
            residual@.len() == before.len(),
            sum == energies_after(r, before, atom@, o, core_len as int, e, i as int),
            forall|t: int|
                0 <= t < before.len() ==> #[trigger] residual@[t] == if o.tau <= t < o.tau + i {
                    left_at(r, before, atom@, o, t - o.tau)
                } else {
                    before[t]
                },
        decreases o.len - i,
    {
        let old_sample = residual[o.tau + i];
        let new_sample = r.minus_single(old_sample, atom[o.skip + i]);
        let x = r.widen(old_sample);
        let y = r.widen(new_sample);
        let moved = r.minus(r.times(y, y), r.times(x, x));
        sum = Energies {
            whole: r.plus(sum.whole, moved),
            core: if o.tau + i < core_len {
                r.plus(sum.core, moved)
            } else {
                sum.core
            },
        };
        residual.set(o.tau + i, new_sample);
        i += 1;
    }
    sum
}

// ---------------------------------------------------------------------------------------------
// what the energies stand for
// ---------------------------------------------------------------------------------------------

/// The energy of the first `n` samples.
pub open spec fn power(s: Seq<Single>, n: int) -> real
    decreases n,
{
    if n <= 0 {
        0real
    } else {
        power(s, n - 1) + s[n - 1].value() * s[n - 1].value()
    }
}

pub proof fn lemma_power_rises(s: Seq<Single>, n: int, m: int)
    requires
        0 <= n <= m,
    ensures
        0real <= power(s, n) <= power(s, m),
    decreases m,
{
    if n < m {
        lemma_power_rises(s, n, m - 1);
        lemma_square_above(s[m - 1].value());
    } else if n > 0 {
        lemma_power_rises(s, n - 1, n - 1);
        lemma_square_above(s[n - 1].value());
    }
}

/// Sequences that agree from `n` on differ in energy as their first `n` samples do.
proof fn lemma_power_agrees(s: Seq<Single>, t: Seq<Single>, n: int, m: int)
    requires
        0 <= n <= m <= s.len(),
        s.len() == t.len(),
        forall|i: int| n <= i < m ==> s[i] == t[i],
    ensures
        power(s, m) - power(t, m) == power(s, n) - power(t, n),
    decreases m,
{
    if n < m {
        lemma_power_agrees(s, t, n, m - 1);
    }
}

/// What a residual is once an atom is taken out of it where they overlap.
pub open spec fn is_left<R: Reals>(
    r: &R,
    residual: Seq<Single>,
    atom: Seq<Single>,
    o: Overlap,
    after: Seq<Single>,
) -> bool {
    &&& after.len() == residual.len()
    &&& forall|t: int|
        0 <= t < residual.len() ==> #[trigger] after[t] == if o.tau <= t < o.tau + o.len {
            left_at(r, residual, atom, o, t - o.tau)
        } else {
            residual[t]
        }
}

/// The change one sample makes is the change of its square.
proof fn lemma_a_change_is_of_squares<R: Reals>(
    r: &R,
    x: Single,
    y: Single,
    sum: Double,
    limit: real,
    err: real,
)
    requires
        steady(r, limit, err),
        0real <= err,
        x.finite() && y.finite() && sum.finite(),
        size(sum.value()) + x.value() * x.value() + y.value() * y.value() + 4real * err <= limit,
    ensures
        near(
            r.plus_of(sum, change(r, x, y)),
            sum.value() + y.value() * y.value() - x.value() * x.value(),
            4real * err,
        ),
{
    let (a, b) = (r.widen_of(x), r.widen_of(y));
    lemma_square_above(x.value());
    lemma_square_above(y.value());
    assert(near(r.times_of(a, a), x.value() * x.value(), err));
    assert(near(r.times_of(b, b), y.value() * y.value(), err));
    let m = change(r, x, y);
    assert(near(m, r.times_of(b, b).value() - r.times_of(a, a).value(), err));
    assert(near(r.plus_of(sum, m), sum.value() + m.value(), err));
}

/// Where the energies stand after `n` samples of an overlap.
proof fn lemma_energies_follow<R: Reals>(
    r: &R,
    residual: Seq<Single>,
    atom: Seq<Single>,
    o: Overlap,
    after: Seq<Single>,
    core_len: int,
    e: Energies,
    limit: real,
    err: real,
    n: int,
)
    requires
        steady(r, limit, err),
        0real <= err,
        is_left(r, residual, atom, o, after),
        o.tau + o.len <= residual.len(),
        0 <= core_len <= residual.len(),
        e.whole.finite() && e.core.finite(),
        forall|t: int| 0 <= t < residual.len() ==> (#[trigger] residual[t]).finite(),
        forall|t: int| 0 <= t < residual.len() ==> (#[trigger] after[t]).finite(),
        size(e.whole.value()) + power(residual, residual.len() as int) + power(
            after,
            residual.len() as int,
        ) + 4real * (o.len as real * err) <= limit,
        size(e.core.value()) + power(residual, residual.len() as int) + power(
            after,
            residual.len() as int,
        ) + 4real * (o.len as real * err) <= limit,
        0 <= n <= o.len,
    ensures
        ({
            let got = energies_after(r, residual, atom, o, core_len, e, n);
            let end = o.tau + n;
            let inner = if end < core_len {
                end
            } else {
                core_len
            };
            &&& near(
                got.whole,
                e.whole.value() + power(after, end) - power(residual, end),
                4real * (n as real * err),
            )
            &&& near(
                got.core,
                e.core.value() + power(after, inner) - power(residual, inner),
                4real * (n as real * err),
            )
        }),
    decreases n,
{
    let total = residual.len() as int;
    let start = o.tau as int;
    if n == 0 {
        let inner = if start < core_len {
            start
        } else {
            core_len
        };
        lemma_power_agrees(after, residual, 0, start);
        lemma_power_agrees(after, residual, 0, inner);
        assert(0int as real * err == 0real) by {
            lemma_one_more(0, err);
            assert(1int as real * err == err) by (nonlinear_arith);
        }
    } else {
        lemma_energies_follow(r, residual, atom, o, after, core_len, e, limit, err, n - 1);
        let rest = energies_after(r, residual, atom, o, core_len, e, n - 1);
        let t = o.tau + n - 1;
        let (x, y) = (residual[t], after[t]);
        assert(y == left_at(r, residual, atom, o, n - 1));
        lemma_one_more(n - 1, err);
        lemma_fewer(n, o.len as int, err);
        lemma_power_rises(residual, 0, t);
        lemma_power_rises(after, 0, t);
        lemma_power_rises(residual, t + 1, total);
        lemma_power_rises(after, t + 1, total);
        lemma_square_above(x.value());
        lemma_square_above(y.value());
        lemma_a_change_is_of_squares(r, x, y, rest.whole, limit, err);
        if t < core_len {
            lemma_a_change_is_of_squares(r, x, y, rest.core, limit, err);
        }
    }
}

/// The energies follow the residual: what taking an atom out does to each is what it does to the sum of
/// the squares of the samples it stands for, all of them or those of the core, to within four errors of
/// the machine's for each sample the atom covers.
pub proof fn law_energies_follow_the_residual<R: Reals>(
    r: &R,
    residual: Seq<Single>,
    atom: Seq<Single>,
    o: Overlap,
    after: Seq<Single>,
    core_len: int,
    e: Energies,
    limit: real,
    err: real,
)
    requires
        steady(r, limit, err),
        0real <= err,
        is_left(r, residual, atom, o, after),
        o.tau + o.len <= residual.len(),
        0 <= core_len <= residual.len(),
        e.whole.finite() && e.core.finite(),
        forall|t: int| 0 <= t < residual.len() ==> (#[trigger] residual[t]).finite(),
        forall|t: int| 0 <= t < residual.len() ==> (#[trigger] after[t]).finite(),
        size(e.whole.value()) + power(residual, residual.len() as int) + power(
            after,
            residual.len() as int,
        ) + 4real * (o.len as real * err) <= limit,
        size(e.core.value()) + power(residual, residual.len() as int) + power(
            after,
            residual.len() as int,
        ) + 4real * (o.len as real * err) <= limit,
    ensures
        ({
            let got = energies_after(r, residual, atom, o, core_len, e, o.len as int);
            let n = residual.len() as int;
            &&& near(
                got.whole,
                e.whole.value() + power(after, n) - power(residual, n),
                4real * (o.len as real * err),
            )
            &&& near(
                got.core,
                e.core.value() + power(after, core_len) - power(residual, core_len),
                4real * (o.len as real * err),
            )
        }),
{
    let end = o.tau + o.len;
    lemma_energies_follow(r, residual, atom, o, after, core_len, e, limit, err, o.len as int);
    lemma_power_agrees(after, residual, end, residual.len() as int);
    if end < core_len {
        lemma_power_agrees(after, residual, end, core_len);
    }
}

} // verus!
