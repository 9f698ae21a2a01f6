//! What a frame's bound bounds.
//!
//! A frame that an atom touches is not recomputed at once: its energy is raised to one it cannot exceed.
//! The search is exact only if that holds, so what the bound is made of is tied here to what it stands
//! for.

use crate::dict::Block;
use crate::ieee::{Double, Single};
use crate::mp::{abs_sum, raised_bound_of, square_sum};
use crate::reals::Reals;
use crate::rounding::{
    close, gives, lemma_close_to_itself, lemma_double_above_one, lemma_double_below_one,
    lemma_in_proportion, lemma_larger, lemma_larger_single, lemma_nothing_single, lemma_one_more,
    lemma_over, lemma_small_numbers, lemma_square_above, lemma_times, lemma_unsigned, moderate,
    near, rounds, size, steady, takes_roots, tame,
};
use crate::subtract::{lemma_power_rises, power};
use vstd::arithmetic::power2::pow2;
use vstd::prelude::*;

verus! {

proof fn lemma_no_less(x: real, y: real)
    by (nonlinear_arith)
    requires
        0real <= x,
        0real <= y,
        y * y <= x * x,
    ensures
        y <= x,
{
}

proof fn lemma_squares_in_order(x: real, y: real)
    by (nonlinear_arith)
    requires
        0real <= y <= x,
    ensures
        y * y <= x * x,
{
}

proof fn lemma_square_of_a_part(k: real, a: real)
    by (nonlinear_arith)
    ensures
        (k * a) * (k * a) == (k * k) * (a * a),
{
}

/// A root is no less than all but a hundred-thousandth of what its square is close to the square of.
proof fn lemma_a_root_reaches(x: real, a: real)
    requires
        0real <= x,
        0real <= a,
        999_990real * (a * a) <= 1_000_000real * (x * x),
    ensures
        99_999real * a <= 100_000real * x,
{
    let k = 99_999real / 100_000real;
    lemma_square_above(a);
    lemma_square_of_a_part(k, a);
    assert(k * k == 9_999_800_001real / 10_000_000_000real) by (nonlinear_arith)
        requires
            k == 99_999real / 100_000real,
    ;
    let s = a * a;
    assert((k * k) * s == 9_999_800_001real / 10_000_000_000real * s);
    assert((k * a) * (k * a) <= x * x);
    assert(0real <= k * a);
    lemma_no_less(x, k * a);
}

proof fn lemma_bound_constants()
    ensures
        (Double { bits: 0x3ff0_0068_db8b_ac71 }).finite(),
        1_000_090real / 1_000_000real <= (Double { bits: 0x3ff0_0068_db8b_ac71 }).value() <= 2real,
        (Double { bits: 0x3d71_9799_812d_ea11 }).finite(),
        0real <= (Double { bits: 0x3d71_9799_812d_ea11 }).value() <= 1real,
{
    vstd::arithmetic::power2::lemma2_to64();
    let c = Double { bits: 0x3ff0_0068_db8b_ac71 };
    lemma_double_above_one(c, 0, 0x68_db8b_ac71);
    assert(c.value() * 0x10_0000_0000_0000real == 0x10_0068_db8b_ac71real);
    let t = Double { bits: 0x3d71_9799_812d_ea11 };
    lemma_double_below_one(t, 40, 0x1_9799_812d_ea11);
    vstd::arithmetic::power2::lemma_pow2_adds(32, 8);
    assert(pow2(40) == 0x100_0000_0000);
    assert((0x10_0000_0000_0000 * pow2(40)) as real == 0x1000_0000_0000_0000_0000_0000real);
    assert(t.value() * 0x1000_0000_0000_0000_0000_0000real == 0x11_9799_812d_ea11real);
}

/// The roots of two numbers, and the machine's sum of them.
proof fn lemma_roots_reach<R: Reals>(r: &R, x: Double, y: Double, a: real, d: real)
    requires
        rounds(r),
        takes_roots(r),
        x.finite() && y.finite(),
        1real <= x.value() * 10_000_000_000_000_000_000_000_000_000real,
        x.value() <= 10_000_000_000_000_000_000_000_000_000real,
        1real <= y.value() * 10_000_000_000_000_000_000_000_000_000real,
        y.value() <= 10_000_000_000_000_000_000_000_000_000real,
        0real <= a,
        0real <= d,
        999_993real * (a * a) <= 1_000_000real * x.value(),
        999_993real * (d * d) <= 1_000_000real * y.value(),
    ensures
        ({
            let reach = r.plus_of(r.root_of(x), r.root_of(y));
            &&& reach.finite()
            &&& 99_998real * (a + d) <= 100_000real * reach.value()
            &&& 1real <= reach.value() * 1_000_000_000_000_000real
            &&& reach.value() <= 400_000_000_000_000real
        }),
{
    assert(moderate(x.value()) && moderate(y.value()));
    let (p, q) = (r.root_of(x), r.root_of(y));
    let (u, v) = (p.value(), q.value());
    let (uu, vv) = (u * u, v * v);
    assert(size(uu - x.value()) * 1_000_000real <= 3real * x.value());
    assert(size(vv - y.value()) * 1_000_000real <= 3real * y.value());
    assert(999_997real * x.value() <= 1_000_000real * uu <= 1_000_003real * x.value());
    assert(999_997real * y.value() <= 1_000_000real * vv <= 1_000_003real * y.value());
    lemma_square_above(a);
    lemma_square_above(d);
    lemma_enough_left(a * a, x.value(), uu);
    lemma_enough_left(d * d, y.value(), vv);
    lemma_a_root_reaches(u, a);
    lemma_a_root_reaches(v, d);
    let big = 150_000_000_000_000real;
    assert(big * big == 22_500_000_000_000_000_000_000_000_000real);
    lemma_no_less(big, u);
    lemma_no_less(big, v);
    let small = 1real / 300_000_000_000_000real;
    assert(small * small * 90_000_000_000_000_000_000_000_000_000real == 1real) by (nonlinear_arith)
        requires
            small == 1real / 300_000_000_000_000real,
    ;
    let ss = small * small;
    assert(ss * 90_000_000_000_000_000_000_000_000_000real == 1real);
    assert(ss <= uu);
    lemma_no_less(u, small);
    let s = u + v;
    assert(moderate(s));
    let reach = r.plus_of(p, q);
    assert(gives(reach, s));
    assert(size(reach.value() - s) * 1_000_000real <= 1real * s);
    assert(999_999real * s <= 1_000_000real * reach.value() <= 1_000_001real * s);
}

proof fn lemma_enough_left(s: real, x: real, y: real)
    by (nonlinear_arith)
    requires
        0real <= s,
        999_993real * s <= 1_000_000real * x,
        999_997real * x <= 1_000_000real * y,
    ensures
        999_990real * s <= 1_000_000real * y,
{
}

/// What three roundings and the margin make of a square.
proof fn lemma_the_margin_covers(t: real, w: real, p: real, m: real, b: real)
    by (nonlinear_arith)
    requires
        0real <= t,
        9_999_600_004real * t <= 10_000_000_000real * w,
        999_999real * w <= 1_000_000real * p,
        999_999real * (1_000_090real / 1_000_000real * p) <= 1_000_000real * m,
        999_999real * m <= 1_000_000real * b,
    ensures
        t <= b,
{
}

/// A raised bound is one: a frame that held at most the old energy, and whose correlations an atom
/// changes by no more than the swing and by no more than the atom's own energy, holds no more than the
/// bound. The roots of the energies add up where their vectors do, so whatever the old vector's length
/// and the change's, the square of their sum is within it.
pub proof fn law_a_raised_bound_is_never_exceeded<R: Reals>(
    r: &R,
    old_energy: Double,
    d_max: Double,
    w2: Double,
    lambda_min: Double,
    a: real,
    d: real,
)
    requires
        rounds(r),
        takes_roots(r),
        old_energy.finite() && d_max.finite() && w2.finite() && lambda_min.finite(),
        0real < d_max.value(),
        0real < lambda_min.value(),
        tame(old_energy.value()),
        tame(w2.value()),
        tame(d_max.value() * d_max.value()),
        tame(d_max.value() * d_max.value() / lambda_min.value()),
        0real <= a,
        0real <= d,
        a * a <= old_energy.value(),
        d * d <= w2.value(),
        d * d <= d_max.value() * d_max.value() / lambda_min.value(),
    ensures
        raised_bound_of(r, old_energy, d_max, w2, lambda_min).finite(),
        (a + d) * (a + d) <= raised_bound_of(r, old_energy, d_max, w2, lambda_min).value(),
{
    let (dm, l) = (d_max.value(), lambda_min.value());
    lemma_small_numbers();
    lemma_bound_constants();
    lemma_close_to_itself(dm, 0);
    lemma_close_to_itself(l, 0);
    lemma_times(r, d_max, d_max, dm, dm, 0, 0);
    lemma_over(r, r.times_of(d_max, d_max), lambda_min, dm * dm, l, 3, 0);
    let q = r.over_of(r.times_of(d_max, d_max), lambda_min);
    let ideal = dm * dm / l;
    assert(size(q.value() - ideal) * 1_000_000real <= 7real * ideal);
    assert(999_993real * ideal <= 1_000_000real * q.value() <= 1_000_007real * ideal);
    lemma_larger(w2, q);
    let delta = w2.smaller(q);
    let zero = Double { bits: 0 };
    lemma_larger(old_energy, zero);
    let from = old_energy.larger(zero);
    lemma_square_above(d);
    lemma_square_above(a);
    lemma_roots_reach(r, from, delta, a, d);
    let reach = r.plus_of(r.root_of(from), r.root_of(delta));
    let v = reach.value();
    let t = a + d;
    let k = 99_998real / 100_000real;
    assert(0real <= k * t <= v);
    lemma_squares_in_order(v, k * t);
    lemma_square_of_a_part(k, t);
    assert(k * k == 9_999_600_004real / 10_000_000_000real) by (nonlinear_arith)
        requires
            k == 99_998real / 100_000real,
    ;
    let tt = t * t;
    let w = v * v;
    assert((k * k) * tt == 9_999_600_004real / 10_000_000_000real * tt);
    lemma_square_above(t);
    let big = 400_000_000_000_000real;
    assert(big * big == 160_000_000_000_000_000_000_000_000_000real);
    lemma_squares_in_order(big, v);
    let small = 1real / 1_000_000_000_000_000real;
    assert(small * small * 1_000_000_000_000_000_000_000_000_000_000real == 1real)
        by (nonlinear_arith)
        requires
            small == 1real / 1_000_000_000_000_000real,
    ;
    let ss = small * small;
    assert(ss * 1_000_000_000_000_000_000_000_000_000_000real == 1real);
    lemma_squares_in_order(v, small);
    assert(moderate(w));
    let p = r.times_of(reach, reach);
    assert(gives(p, w));
    assert(size(p.value() - w) * 1_000_000real <= 1real * w);
    assert(999_999real * w <= 1_000_000real * p.value() <= 1_000_001real * w);
    let c = Double { bits: 0x3ff0_0068_db8b_ac71 };
    let tiny = Double { bits: 0x3d71_9799_812d_ea11 };
    lemma_in_proportion(1_000_090real / 1_000_000real, c.value(), p.value());
    lemma_in_proportion(c.value(), 2real, p.value());
    assert(c.value() * p.value() == p.value() * c.value()) by (nonlinear_arith);
    let y = p.value() * c.value();
    assert(moderate(y));
    let m = r.times_of(p, c);
    assert(gives(m, y));
    assert(size(m.value() - y) * 1_000_000real <= 1real * y);
    assert(999_999real * y <= 1_000_000real * m.value() <= 1_000_001real * y);
    let z = m.value() + tiny.value();
    assert(moderate(z));
    let b = r.plus_of(m, tiny);
    assert(gives(b, z));
    assert(size(b.value() - z) * 1_000_000real <= 1real * z);
    assert(999_999real * z <= 1_000_000real * b.value());
    lemma_the_margin_covers(tt, w, p.value(), m.value(), b.value());
}

/// The sum of the sizes of the first `n` samples.
pub open spec fn magnitudes(atom: Seq<Single>, n: int) -> real
    decreases n,
{
    if n <= 0 {
        0real
    } else {
        magnitudes(atom, n - 1) + size(atom[n - 1].value())
    }
}

proof fn lemma_magnitudes_rise(atom: Seq<Single>, n: int, m: int)
    requires
        0 <= n <= m,
    ensures
        0real <= magnitudes(atom, n) <= magnitudes(atom, m),
    decreases m,
{
    if n < m {
        lemma_magnitudes_rise(atom, n, m - 1);
    } else if n > 0 {
        lemma_magnitudes_rise(atom, n - 1, n - 1);
    }
}

/// The running sums of an atom are those of its samples' sizes and squares, to within the machine's
/// errors: one a sample for the sizes, and two for the squares.
pub proof fn law_running_sums_are_of_sizes_and_squares<R: Reals>(
    r: &R,
    atom: Seq<Single>,
    n: int,
    limit: real,
    err: real,
)
    requires
        steady(r, limit, err),
        0real <= err,
        0 <= n <= atom.len(),
        forall|i: int| 0 <= i < n ==> (#[trigger] atom[i]).finite(),
        magnitudes(atom, n) + n as real * err <= limit,
        power(atom, n) + 2real * (n as real * err) <= limit,
    ensures
        near(abs_sum(r, atom, n), magnitudes(atom, n), n as real * err),
        near(square_sum(r, atom, n), power(atom, n), 2real * (n as real * err)),
    decreases n,
{
    lemma_small_numbers();
    if n == 0 {
        lemma_one_more(0, err);
        assert(1int as real * err == err) by (nonlinear_arith);
    } else {
        let x = r.widen_of(atom[n - 1]);
        lemma_one_more(n - 1, err);
        lemma_square_above(x.value());
        lemma_power_rises(atom, n - 1, n);
        lemma_magnitudes_rise(atom, n - 1, n);
        law_running_sums_are_of_sizes_and_squares(r, atom, n - 1, limit, err);
        lemma_unsigned(x);
        let (s, q) = (abs_sum(r, atom, n - 1), square_sum(r, atom, n - 1));
        assert(near(r.plus_of(s, x.unsigned()), s.value() + size(x.value()), err));
        let xx = r.times_of(x, x);
        assert(near(xx, x.value() * x.value(), err));
        assert(near(r.plus_of(q, xx), q.value() + xx.value(), err));
    }
}

/// The smallest eigenvalue is half the envelope's energy times what the largest coherence leaves of one.
pub proof fn law_the_least_eigenvalue_is_what_coherence_leaves<R: Reals>(r: &R, b: Block)
    requires
        rounds(r),
        b.env.energy.finite() && b.coherence(b.bins()).finite(),
        0real < b.env.energy.value(),
        tame(b.env.energy.value() / 2real),
        tame(1real - b.coherence(b.bins()).value()),
        tame(b.env.energy.value() / 2real * (1real - b.coherence(b.bins()).value())),
    ensures
        b.least_eigenvalue_of(r).finite(),
        close(
            b.least_eigenvalue_of(r).value(),
            b.env.energy.value() / 2real * (1real - b.coherence(b.bins()).value()),
            7,
        ),
{
    lemma_small_numbers();
    vstd::arithmetic::power2::lemma2_to64();
    let half = Double { bits: 0x3fe0_0000_0000_0000 };
    let one = Double { bits: 0x3ff0_0000_0000_0000 };
    lemma_double_below_one(half, 1, 0);
    assert((0x10_0000_0000_0000 * pow2(1)) as real == 0x20_0000_0000_0000real);
    assert(half.value() * 0x20_0000_0000_0000real == 0x10_0000_0000_0000real);
    assert(half.value() == 1real / 2real);
    let e = b.env.energy.value();
    let c = b.coherence(b.bins());
    lemma_close_to_itself(1real / 2real, 0);
    lemma_close_to_itself(e, 0);
    assert(1real / 2real * e == e / 2real);
    lemma_times(r, half, b.env.energy, 1real / 2real, e, 0, 0);
    let rest = r.minus_of(one, r.widen_of(c));
    assert(moderate(1real - c.value()));
    assert(gives(rest, 1real - c.value()));
    lemma_times(r, r.times_of(half, b.env.energy), rest, e / 2real, 1real - c.value(), 3, 1);
}

/// No bin that can win is more coherent than the block's coherence.
pub proof fn law_coherence_is_the_largest_of_the_live(b: Block, n: int, i: int)
    requires
        0 <= i < n <= b.rho@.len(),
        forall|j: int| 0 <= j < n ==> (#[trigger] b.rho@[j]).finite(),
        b.live(b.k_lo + i),
    ensures
        b.coherence(n).finite(),
        b.rho@[i].value() <= b.coherence(n).value(),
    decreases n,
{
    lemma_coherence_is_finite(b, n);
    lemma_coherence_is_finite(b, n - 1);
    lemma_larger_single(b.coherence(n - 1), b.rho@[n - 1]);
    if i < n - 1 {
        law_coherence_is_the_largest_of_the_live(b, n - 1, i);
    }
}

proof fn lemma_coherence_is_finite(b: Block, n: int)
    requires
        0 <= n <= b.rho@.len(),
        forall|j: int| 0 <= j < n ==> (#[trigger] b.rho@[j]).finite(),
    ensures
        b.coherence(n).finite(),
    decreases n,
{
    lemma_nothing_single();
    if n > 0 {
        lemma_coherence_is_finite(b, n - 1);
        lemma_larger_single(b.coherence(n - 1), b.rho@[n - 1]);
    }
}

} // verus!
