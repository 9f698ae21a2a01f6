//! What the numbers stand for, and how far the machine's arithmetic is from that of the real numbers.
//!
//! A formula is written out over a machine's operations, and says nothing by itself of what it is for.
//! The laws that do speak of the numbers its results stand for, and hold on every machine whose
//! operations round: each gives the true result to a part in a million, wherever that is neither
//! enormous nor minute. IEEE arithmetic in either precision does better than that.

use crate::ieee::{law_order_is_numeric, Double, Single};
use crate::reals::Reals;
use vstd::arithmetic::power2::{
    lemma_pow2_adds, lemma_pow2_pos, lemma_pow2_unfold, pow2,
};
use vstd::prelude::*;

verus! {

/// What a magnitude of a format with `step` mantissa values to an exponent stands for, in units of its
/// smallest.
pub open spec fn units(m: int, step: int) -> int {
    if m / step <= 0 {
        m % step
    } else {
        (step + m % step) * pow2((m / step - 1) as nat)
    }
}

impl Double {
    /// The number a finite pattern stands for.
    pub open spec fn value(self) -> real {
        self.scaled() as real / pow2(1074) as real
    }
}

impl Single {
    /// The number a finite pattern stands for, times `2^149`, which makes it whole.
    pub open spec fn scaled(self) -> int {
        let v = units(self.magnitude(), 0x80_0000);
        if self.negative() {
            -v
        } else {
            v
        }
    }

    /// The number a finite pattern stands for.
    pub open spec fn value(self) -> real {
        self.scaled() as real / pow2(149) as real
    }
}

/// A number without its sign.
pub open spec fn size(x: real) -> real {
    if x < 0real {
        -x
    } else {
        x
    }
}

/// The larger of two numbers.
pub open spec fn most(x: real, y: real) -> real {
    if x < y {
        y
    } else {
        x
    }
}

/// The smaller of two numbers.
pub open spec fn least(x: real, y: real) -> real {
    if y < x {
        y
    } else {
        x
    }
}

/// `x` is `y` to `n` parts in a million.
pub open spec fn close(x: real, y: real, n: int) -> bool {
    size(x - y) * 1_000_000real <= n as real * size(y)
}

/// Zero, or neither enormous nor minute.
pub open spec fn moderate(x: real) -> bool {
    x == 0real || {
        &&& size(x) <= 1_000_000_000_000_000_000_000_000_000_000real
        &&& 1real <= size(x) * 1_000_000_000_000_000_000_000_000_000_000real
    }
}

/// Above zero, and of a size that settings and signals have.
pub open spec fn ordinary(x: real) -> bool {
    x <= 1_000_000_000real && 1real <= x * 1_000_000_000real
}

/// Above zero and well within what is moderate.
pub open spec fn tame(x: real) -> bool {
    x <= 1_000_000_000_000_000_000_000_000_000real && 1real <= x
        * 1_000_000_000_000_000_000_000_000_000real
}

/// An operation on doubles gives `y` as nearly as it can.
pub open spec fn gives(x: Double, y: real) -> bool {
    moderate(y) ==> x.finite() && close(x.value(), y, 1)
}

/// An operation on singles gives `y` as nearly as it can.
pub open spec fn gives_single(x: Single, y: real) -> bool {
    moderate(y) ==> x.finite() && close(x.value(), y, 1)
}

/// The machine's operations round.
pub open spec fn rounds<R: Reals>(r: &R) -> bool {
    &&& forall|a: Double, b: Double|
        a.finite() && b.finite() ==> gives(#[trigger] r.plus_of(a, b), a.value() + b.value())
    &&& forall|a: Double, b: Double|
        a.finite() && b.finite() ==> gives(#[trigger] r.minus_of(a, b), a.value() - b.value())
    &&& forall|a: Double, b: Double|
        a.finite() && b.finite() ==> gives(#[trigger] r.times_of(a, b), a.value() * b.value())
    &&& forall|a: Double, b: Double|
        a.finite() && b.finite() && b.value() != 0real ==> gives(
            #[trigger] r.over_of(a, b),
            a.value() / b.value(),
        )
    &&& forall|a: Single, b: Single|
        a.finite() && b.finite() ==> gives_single(
            #[trigger] r.plus_single_of(a, b),
            a.value() + b.value(),
        )
    &&& forall|a: Single, b: Single|
        a.finite() && b.finite() ==> gives_single(
            #[trigger] r.minus_single_of(a, b),
            a.value() - b.value(),
        )
    &&& forall|a: Single, b: Single|
        a.finite() && b.finite() ==> gives_single(
            #[trigger] r.times_single_of(a, b),
            a.value() * b.value(),
        )
    &&& forall|a: Single, b: Single|
        a.finite() && b.finite() && b.value() != 0real ==> gives_single(
            #[trigger] r.over_single_of(a, b),
            a.value() / b.value(),
        )
    &&& converts(r)
}

/// The machine's conversions round, and widening loses nothing.
pub open spec fn converts<R: Reals>(r: &R) -> bool {
    &&& forall|x: Single|
        x.finite() ==> (#[trigger] r.widen_of(x)).finite() && r.widen_of(x).value() == x.value()
    &&& forall|x: Double| x.finite() ==> gives_single(#[trigger] r.narrow_of(x), x.value())
    &&& forall|n: usize| gives(#[trigger] r.count_of(n), n as real)
    &&& forall|n: i128| gives(#[trigger] r.long_of(n), n as real)
    &&& forall|n: usize| gives_single(#[trigger] r.count_single_of(n), n as real)
}

/// The exponential function: it turns sums into products, rises, and its base is `e`.
pub open spec fn is_exponential(e: spec_fn(real) -> real) -> bool {
    &&& forall|x: real, y: real| #[trigger] e(x + y) == e(x) * e(y)
    &&& forall|x: real, y: real| x < y ==> #[trigger] e(x) < #[trigger] e(y)
    &&& forall|x: real| 0real < #[trigger] e(x)
    &&& 2718real < e(1real) * 1000real < 2719real
}

/// A logarithm of some base: it turns products into sums, and rises.
pub open spec fn is_logarithm(l: spec_fn(real) -> real, base: real) -> bool {
    &&& forall|x: real, y: real|
        0real < x && 0real < y ==> #[trigger] l(x * y) == l(x) + l(y)
    &&& forall|x: real, y: real| 0real < x < y ==> #[trigger] l(x) < #[trigger] l(y)
    &&& l(base) == 1real
}

/// The machine's exponentials are those of `e`.
pub open spec fn exponentiates<R: Reals>(r: &R, e: spec_fn(real) -> real) -> bool {
    &&& forall|x: Double| x.finite() ==> gives(#[trigger] r.exp_of(x), e(x.value()))
    &&& forall|x: Single| x.finite() ==> gives_single(#[trigger] r.exp_single_of(x), e(x.value()))
}

/// A machine's logarithm is `y` as nearly as it can be: no number of a format has a logarithm that is
/// enormous, or minute and not zero.
pub open spec fn is_log(x: Double, y: real) -> bool {
    &&& x.finite()
    &&& close(x.value(), y, 1)
    &&& size(x.value()) <= 100_000real
    &&& x.value() == 0real || 1real <= size(x.value()) * 100_000_000_000_000_000_000real
}

/// The machine's natural logarithms are those of `l`.
pub open spec fn takes_logs<R: Reals>(r: &R, l: spec_fn(real) -> real) -> bool {
    forall|x: Double| x.finite() && 0real < x.value() ==> is_log(#[trigger] r.ln_of(x), l(x.value()))
}

/// The machine's decimal logarithms are those of `l`.
pub open spec fn takes_log10s<R: Reals>(r: &R, l: spec_fn(real) -> real) -> bool {
    forall|x: Double|
        x.finite() && 0real < x.value() ==> is_log(#[trigger] r.log10_of(x), l(x.value()))
}

// ---------------------------------------------------------------------------------------------
// errors add up
// ---------------------------------------------------------------------------------------------

proof fn lemma_scales(a: real, b: real, c: real)
    by (nonlinear_arith)
    requires
        a <= b,
        0real <= c,
    ensures
        a * c <= b * c,
{
}

proof fn lemma_divided(a: real, b: real)
    by (nonlinear_arith)
    requires
        b != 0real,
    ensures
        (a / b) * b == a,
{
}

proof fn lemma_spread(a: real, b: real, c: real)
    by (nonlinear_arith)
    ensures
        (a + b) * c == a * c + b * c,
        (a - b) * c == a * c - b * c,
{
}

proof fn lemma_swap(a: real, b: real)
    by (nonlinear_arith)
    ensures
        a * b == b * a,
{
}

proof fn lemma_regroup(a: real, b: real, c: real)
    by (nonlinear_arith)
    ensures
        (a * b) * c == a * (b * c),
{
}

pub proof fn lemma_above(a: real, b: real)
    by (nonlinear_arith)
    requires
        0real < a,
        0real < b,
    ensures
        0real < a * b,
{
}

pub proof fn lemma_close_to_itself(x: real, n: int)
    requires
        n >= 0,
    ensures
        close(x, x, n),
{
    lemma_scales(0real, n as real, size(x));
}

pub proof fn lemma_close_looser(x: real, y: real, n: int, m: int)
    requires
        close(x, y, n),
        n <= m,
    ensures
        close(x, y, m),
{
    lemma_scales(n as real, m as real, size(y));
}

/// What closeness to something above zero comes to.
proof fn lemma_close_ends(x: real, y: real, n: int)
    requires
        0real < y,
    ensures
        close(x, y, n) <==> {
            &&& (1_000_000real - n as real) * y <= 1_000_000real * x
            &&& 1_000_000real * x <= (1_000_000real + n as real) * y
        },
{
    lemma_spread(1_000_000real, n as real, y);
}

/// What is close to something above zero is above zero, and not far from it.
pub proof fn lemma_close_sign(x: real, y: real, n: int)
    requires
        close(x, y, n),
        n <= 100_000,
    ensures
        y > 0real ==> 9real * y <= 10real * x && 10real * x <= 11real * y,
        y == 0real ==> x == 0real,
        y < 0real ==> x < 0real,
{
    lemma_scales(n as real, 100_000real, size(y));
}

/// Closeness carries over to a number's mirror image.
pub proof fn lemma_close_mirrored(x: real, y: real, n: int)
    ensures
        close(-x, -y, n) == close(x, y, n),
{
}

pub proof fn lemma_close_through(x: real, y: real, z: real, n: int, m: int)
    requires
        close(x, y, n),
        close(y, z, m),
        0 <= n <= 1000,
        0 <= m <= 1000,
    ensures
        close(x, z, n + m + 1),
{
    let (a, b) = (n as real, m as real);
    let d = size(y - z);
    assert(size(y) <= size(z) + d);
    lemma_scales(size(y), size(z) + d, a);
    lemma_spread(size(z), d, a);
    lemma_swap(size(y), a);
    lemma_swap(size(z), a);
    // a d is at most a b |z| in a million, and so at most |z| in a million.
    lemma_scales(a, 1000real, d);
    lemma_swap(a, d);
    lemma_scales(b, 1000real, size(z));
    lemma_spread(a + b, 1real, size(z));
    lemma_spread(a, b, size(z));
}

pub proof fn lemma_close_product(x: real, y: real, a: real, b: real, n: int, m: int)
    requires
        close(x, a, n),
        close(y, b, m),
        0 <= n <= 1000,
        0 <= m <= 1000,
        0real < a,
        0real < b,
    ensures
        close(x * y, a * b, n + m + 1),
{
    let (p, q) = (n as real, m as real);
    lemma_close_ends(x, a, n);
    lemma_close_ends(y, b, m);
    lemma_close_sign(x, a, n);
    lemma_close_sign(y, b, m);
    lemma_above(a, b);
    let ab = a * b;
    // x y against x b, and x b against a b.
    lemma_scales((1_000_000real - q) * b, 1_000_000real * y, x);
    lemma_scales(1_000_000real * y, (1_000_000real + q) * b, x);
    lemma_regroup(1_000_000real, y, x);
    lemma_regroup(1_000_000real - q, b, x);
    lemma_regroup(1_000_000real + q, b, x);
    lemma_swap(x, y);
    let xb = b * x;
    lemma_scales((1_000_000real - p) * a, 1_000_000real * x, b);
    lemma_scales(1_000_000real * x, (1_000_000real + p) * a, b);
    lemma_regroup(1_000_000real, x, b);
    lemma_regroup(1_000_000real - p, a, b);
    lemma_regroup(1_000_000real + p, a, b);
    lemma_swap(x, b);
    lemma_above(b, x);
    lemma_spread(1_000_000real, q, xb);
    lemma_spread(1_000_000real, p, ab);
    assert(size(x * y - xb) * 1_000_000real <= q * xb);
    assert(close(x * y, xb, m));
    assert(close(xb, ab, n));
    lemma_close_through(x * y, xb, ab, m, n);
}

pub proof fn lemma_close_inverse(y: real, b: real, m: int)
    requires
        close(y, b, m),
        0 <= m <= 500,
        0real < b,
    ensures
        0real < y,
        0real < 1real / y,
        0real < 1real / b,
        close(1real / y, 1real / b, m + 1),
{
    let q = m as real;
    let (i, j) = (1real / y, 1real / b);
    lemma_close_sign(y, b, m);
    lemma_close_ends(y, b, m);
    lemma_divided(1real, y);
    lemma_divided(1real, b);
    lemma_inverse_above(y);
    lemma_inverse_above(b);
    lemma_above(i, j);
    let ij = i * j;
    // Against i j, b becomes i and y becomes j.
    lemma_scales((1_000_000real - q) * b, 1_000_000real * y, ij);
    lemma_scales(1_000_000real * y, (1_000_000real + q) * b, ij);
    lemma_regroup(1_000_000real - q, b, ij);
    lemma_regroup(1_000_000real + q, b, ij);
    lemma_regroup(1_000_000real, y, ij);
    assert(b * ij == i) by {
        lemma_swap(b, ij);
        lemma_regroup(i, j, b);
    }
    assert(y * ij == j) by {
        lemma_swap(y, ij);
        lemma_swap(i, j);
        lemma_regroup(j, i, y);
    }
    assert((1_000_000real - q) * i <= 1_000_000real * j);
    assert(1_000_000real * j <= (1_000_000real + q) * i);
    lemma_spread(1_000_000real, q, i);
    // q i is at most q j and a little more.
    lemma_scales(q, 500real, i);
    assert(size(i - j) * 1_000_000real <= q * i);
    assert(i <= 2real * j);
    assert(q * i - q * j <= j) by {
        lemma_swap(q, i);
        lemma_swap(q, j);
        lemma_spread(i, j, q);
        lemma_scales(i - j, size(i - j), q);
        lemma_scales(q, 500real, size(i - j));
        lemma_swap(q, size(i - j));
        lemma_swap(500real, size(i - j));
        assert((i - j) * q <= 500real * size(i - j));
    }
    lemma_spread(q, 1real, j);
}

proof fn lemma_inverse_above(y: real)
    by (nonlinear_arith)
    requires
        0real < y,
    ensures
        0real < 1real / y,
{
}

proof fn lemma_ratio_is_product(a: real, b: real)
    by (nonlinear_arith)
    requires
        b != 0real,
    ensures
        a / b == a * (1real / b),
{
}

pub proof fn lemma_close_ratio(x: real, y: real, a: real, b: real, n: int, m: int)
    requires
        close(x, a, n),
        close(y, b, m),
        0 <= n <= 400,
        0 <= m <= 400,
        0real < a,
        0real < b,
    ensures
        0real < y,
        close(x / y, a / b, n + m + 2),
        0real < a / b,
{
    lemma_close_inverse(y, b, m);
    lemma_close_product(x, 1real / y, a, 1real / b, n, m + 1);
    lemma_ratio_is_product(x, y);
    lemma_ratio_is_product(a, b);
    lemma_above(a, 1real / b);
}

/// Sums of what is above zero are as close as their parts.
pub proof fn lemma_close_sum(x: real, y: real, a: real, b: real, n: int)
    requires
        close(x, a, n),
        close(y, b, n),
        a >= 0real,
        b >= 0real,
    ensures
        close(x + y, a + b, n),
{
    lemma_spread(a, b, n as real);
    lemma_swap(a, n as real);
    lemma_swap(b, n as real);
    lemma_swap(a + b, n as real);
}

// ---------------------------------------------------------------------------------------------
// operations on what is close
// ---------------------------------------------------------------------------------------------

proof fn lemma_tame_is_moderate(x: real, y: real, n: int)
    requires
        tame(y),
        close(x, y, n),
        0 <= n <= 1000,
    ensures
        moderate(x),
        0real < x,
        0real < y,
{
    lemma_close_sign(x, y, n);
}

pub proof fn lemma_times<R: Reals>(r: &R, a: Double, b: Double, x: real, y: real, n: int, m: int)
    requires
        rounds(r),
        a.finite(),
        b.finite(),
        close(a.value(), x, n),
        close(b.value(), y, m),
        0 <= n <= 400,
        0 <= m <= 400,
        0real < x,
        0real < y,
        tame(x * y),
    ensures
        r.times_of(a, b).finite(),
        close(r.times_of(a, b).value(), x * y, n + m + 3),
{
    lemma_close_product(a.value(), b.value(), x, y, n, m);
    lemma_tame_is_moderate(a.value() * b.value(), x * y, n + m + 1);
    assert(gives(r.times_of(a, b), a.value() * b.value()));
    lemma_close_through(r.times_of(a, b).value(), a.value() * b.value(), x * y, 1, n + m + 1);
}

pub proof fn lemma_over<R: Reals>(r: &R, a: Double, b: Double, x: real, y: real, n: int, m: int)
    requires
        rounds(r),
        a.finite(),
        b.finite(),
        close(a.value(), x, n),
        close(b.value(), y, m),
        0 <= n <= 400,
        0 <= m <= 400,
        0real < x,
        0real < y,
        tame(x / y),
    ensures
        r.over_of(a, b).finite(),
        close(r.over_of(a, b).value(), x / y, n + m + 4),
{
    lemma_close_ratio(a.value(), b.value(), x, y, n, m);
    lemma_tame_is_moderate(a.value() / b.value(), x / y, n + m + 2);
    assert(gives(r.over_of(a, b), a.value() / b.value()));
    lemma_close_through(r.over_of(a, b).value(), a.value() / b.value(), x / y, 1, n + m + 2);
}

pub proof fn lemma_plus<R: Reals>(r: &R, a: Double, b: Double, x: real, y: real, n: int)
    requires
        rounds(r),
        a.finite(),
        b.finite(),
        close(a.value(), x, n),
        close(b.value(), y, n),
        0 <= n <= 400,
        0real <= x,
        0real <= y,
        tame(x + y),
    ensures
        r.plus_of(a, b).finite(),
        close(r.plus_of(a, b).value(), x + y, n + 2),
{
    lemma_close_sum(a.value(), b.value(), x, y, n);
    lemma_tame_is_moderate(a.value() + b.value(), x + y, n);
    assert(gives(r.plus_of(a, b), a.value() + b.value()));
    lemma_close_through(r.plus_of(a, b).value(), a.value() + b.value(), x + y, 1, n);
}

pub proof fn lemma_times_single<R: Reals>(
    r: &R,
    a: Single,
    b: Single,
    x: real,
    y: real,
    n: int,
    m: int,
)
    requires
        rounds(r),
        a.finite(),
        b.finite(),
        close(a.value(), x, n),
        close(b.value(), y, m),
        0 <= n <= 400,
        0 <= m <= 400,
        0real < x,
        0real < y,
        tame(x * y),
    ensures
        r.times_single_of(a, b).finite(),
        close(r.times_single_of(a, b).value(), x * y, n + m + 3),
{
    lemma_close_product(a.value(), b.value(), x, y, n, m);
    lemma_tame_is_moderate(a.value() * b.value(), x * y, n + m + 1);
    assert(gives_single(r.times_single_of(a, b), a.value() * b.value()));
    lemma_close_through(r.times_single_of(a, b).value(), a.value() * b.value(), x * y, 1, n + m + 1);
}

pub proof fn lemma_over_single<R: Reals>(
    r: &R,
    a: Single,
    b: Single,
    x: real,
    y: real,
    n: int,
    m: int,
)
    requires
        rounds(r),
        a.finite(),
        b.finite(),
        close(a.value(), x, n),
        close(b.value(), y, m),
        0 <= n <= 400,
        0 <= m <= 400,
        0real < x,
        0real < y,
        tame(x / y),
    ensures
        r.over_single_of(a, b).finite(),
        close(r.over_single_of(a, b).value(), x / y, n + m + 4),
{
    lemma_close_ratio(a.value(), b.value(), x, y, n, m);
    lemma_tame_is_moderate(a.value() / b.value(), x / y, n + m + 2);
    assert(gives_single(r.over_single_of(a, b), a.value() / b.value()));
    lemma_close_through(r.over_single_of(a, b).value(), a.value() / b.value(), x / y, 1, n + m + 2);
}

pub proof fn lemma_plus_single<R: Reals>(r: &R, a: Single, b: Single, x: real, y: real, n: int)
    requires
        rounds(r),
        a.finite(),
        b.finite(),
        close(a.value(), x, n),
        close(b.value(), y, n),
        0 <= n <= 400,
        0real <= x,
        0real <= y,
        tame(x + y),
    ensures
        r.plus_single_of(a, b).finite(),
        close(r.plus_single_of(a, b).value(), x + y, n + 2),
{
    lemma_close_sum(a.value(), b.value(), x, y, n);
    lemma_tame_is_moderate(a.value() + b.value(), x + y, n);
    assert(gives_single(r.plus_single_of(a, b), a.value() + b.value()));
    lemma_close_through(r.plus_single_of(a, b).value(), a.value() + b.value(), x + y, 1, n);
}

/// Counts come out as what they count.
pub proof fn lemma_counts<R: Reals>(r: &R, n: usize)
    requires
        rounds(r),
    ensures
        r.count_of(n).finite(),
        close(r.count_of(n).value(), n as real, 1),
        r.count_single_of(n).finite(),
        close(r.count_single_of(n).value(), n as real, 1),
{
    assert(n <= 0xffff_ffff_ffff_ffff);
    assert(moderate(n as real));
    assert(gives(r.count_of(n), n as real));
    assert(gives_single(r.count_single_of(n), n as real));
}

pub proof fn lemma_narrows<R: Reals>(r: &R, a: Double, x: real, n: int)
    requires
        rounds(r),
        a.finite(),
        close(a.value(), x, n),
        0 <= n <= 400,
        tame(x),
    ensures
        r.narrow_of(a).finite(),
        close(r.narrow_of(a).value(), x, n + 2),
{
    lemma_tame_is_moderate(a.value(), x, n);
    assert(gives_single(r.narrow_of(a), a.value()));
    lemma_close_through(r.narrow_of(a).value(), a.value(), x, 1, n);
}

// ---------------------------------------------------------------------------------------------
// what patterns stand for
// ---------------------------------------------------------------------------------------------

proof fn lemma_real_product(a: int, b: int)
    by (nonlinear_arith)
    ensures
        (a * b) as real == a as real * b as real,
{
}

proof fn lemma_cancels(a: real, b: real, c: real)
    by (nonlinear_arith)
    requires
        a * c == b * c,
        0real < c,
    ensures
        a == b,
{
}

/// A fraction over `p` from what it comes to over `d`.
proof fn lemma_fraction(s: int, p: int, d: int, n: int)
    requires
        0 < p,
        s * d == n * p,
    ensures
        (s as real / p as real) * d as real == n as real,
{
    lemma_real_product(s, d);
    lemma_real_product(n, p);
    let v = s as real / p as real;
    lemma_divided(s as real, p as real);
    lemma_regroup(v, d as real, p as real);
    lemma_swap(d as real, p as real);
    lemma_regroup(v, p as real, d as real);
    lemma_cancels(v * d as real, n as real, p as real);
}

/// A double of a whole power of two and up: `(1 + f / 2^52) 2^k`.
pub proof fn lemma_double_above_one(x: Double, k: nat, f: int)
    requires
        k <= 1000,
        0 <= f < 0x10_0000_0000_0000,
        x.bits == (1023 + k) * 0x10_0000_0000_0000 + f,
    ensures
        x.finite(),
        x.value() * 0x10_0000_0000_0000real == ((0x10_0000_0000_0000 + f) * pow2(k)) as real,
{
    let step = 0x10_0000_0000_0000int;
    assert(x.magnitude() == x.bits);
    assert(x.magnitude() / step == 1023 + k && x.magnitude() % step == f);
    lemma_pow2_pos(1074);
    lemma_pow2_adds((1022 + k) as nat, 52);
    lemma_pow2_adds(1074, k);
    lemma_two_to_52();
    let (p, q) = (pow2((1022 + k) as nat) as int, pow2(k) as int);
    assert(p * step == q * pow2(1074)) by {
        assert((1022 + k) + 52 == 1074 + k);
        lemma_int_swap(q, pow2(1074) as int);
    }
    let m = step + f;
    assert((m * p) * step == (m * q) * pow2(1074)) by (nonlinear_arith)
        requires
            p * step == q * pow2(1074),
    ;
    lemma_fraction(x.scaled(), pow2(1074) as int, step, m * q);
}

/// A double below one: `(1 + f / 2^52) / 2^k`.
pub proof fn lemma_double_below_one(x: Double, k: nat, f: int)
    requires
        1 <= k <= 1000,
        0 <= f < 0x10_0000_0000_0000,
        x.bits == (1023 - k) * 0x10_0000_0000_0000 + f,
    ensures
        x.finite(),
        x.value() * (0x10_0000_0000_0000 * pow2(k)) as real == (0x10_0000_0000_0000 + f) as real,
{
    let step = 0x10_0000_0000_0000int;
    assert(x.magnitude() == x.bits);
    assert(x.magnitude() / step == 1023 - k && x.magnitude() % step == f);
    lemma_pow2_pos(1074);
    lemma_pow2_adds((1022 - k) as nat, 52);
    lemma_pow2_adds((1074 - k) as nat, k);
    lemma_two_to_52();
    let (p, q) = (pow2((1022 - k) as nat) as int, pow2(k) as int);
    assert(p * step == pow2((1074 - k) as nat));
    let m = step + f;
    assert((m * p) * (step * q) == m * pow2(1074)) by (nonlinear_arith)
        requires
            p * step == pow2((1074 - k) as nat),
            pow2((1074 - k) as nat) * q == pow2(1074),
    ;
    lemma_fraction(x.scaled(), pow2(1074) as int, step * q, m);
}

/// A single of a whole power of two and up: `(1 + f / 2^23) 2^k`.
pub proof fn lemma_single_above_one(x: Single, k: nat, f: int)
    requires
        k <= 100,
        0 <= f < 0x80_0000,
        x.bits == (127 + k) * 0x80_0000 + f,
    ensures
        x.finite(),
        x.value() * 0x80_0000real == ((0x80_0000 + f) * pow2(k)) as real,
{
    let step = 0x80_0000int;
    assert(x.magnitude() == x.bits);
    assert(x.magnitude() / step == 127 + k && x.magnitude() % step == f);
    lemma_pow2_pos(149);
    lemma_pow2_adds((126 + k) as nat, 23);
    lemma_pow2_adds(149, k);
    vstd::arithmetic::power2::lemma2_to64();
    let (p, q) = (pow2((126 + k) as nat) as int, pow2(k) as int);
    assert(p * step == q * pow2(149)) by {
        assert((126 + k) + 23 == 149 + k);
        lemma_int_swap(q, pow2(149) as int);
    }
    let m = step + f;
    assert((m * p) * step == (m * q) * pow2(149)) by (nonlinear_arith)
        requires
            p * step == q * pow2(149),
    ;
    lemma_fraction(x.scaled(), pow2(149) as int, step, m * q);
}

/// A single below one: `(1 + f / 2^23) / 2^k`.
pub proof fn lemma_single_below_one(x: Single, k: nat, f: int)
    requires
        1 <= k <= 100,
        0 <= f < 0x80_0000,
        x.bits == (127 - k) * 0x80_0000 + f,
    ensures
        x.finite(),
        x.value() * (0x80_0000 * pow2(k)) as real == (0x80_0000 + f) as real,
{
    let step = 0x80_0000int;
    assert(x.magnitude() == x.bits);
    assert(x.magnitude() / step == 127 - k && x.magnitude() % step == f);
    lemma_pow2_pos(149);
    lemma_pow2_adds((126 - k) as nat, 23);
    lemma_pow2_adds((149 - k) as nat, k);
    vstd::arithmetic::power2::lemma2_to64();
    let (p, q) = (pow2((126 - k) as nat) as int, pow2(k) as int);
    assert(p * step == pow2((149 - k) as nat));
    let m = step + f;
    assert((m * p) * (step * q) == m * pow2(149)) by (nonlinear_arith)
        requires
            p * step == pow2((149 - k) as nat),
            pow2((149 - k) as nat) * q == pow2(149),
    ;
    lemma_fraction(x.scaled(), pow2(149) as int, step * q, m);
}

proof fn lemma_int_swap(a: int, b: int)
    by (nonlinear_arith)
    ensures
        a * b == b * a,
{
}

proof fn lemma_two_to_52()
    ensures
        pow2(52) == 0x10_0000_0000_0000,
{
    vstd::arithmetic::power2::lemma2_to64();
    lemma_pow2_adds(32, 20);
}

/// Negation is negation.
pub proof fn lemma_mirrored(x: Double)
    requires
        x.finite(),
    ensures
        x.mirrored().finite(),
        x.mirrored().value() == -x.value(),
{
    lemma_pow2_pos(1074);
    assert(x.mirrored().scaled() == -x.scaled());
    let p = pow2(1074) as real;
    lemma_spread(0real, x.value(), p);
    lemma_divided(x.scaled() as real, p);
    lemma_divided(-(x.scaled() as real), p);
    lemma_cancels(x.mirrored().value(), -x.value(), p);
}

pub proof fn lemma_mirrored_single(x: Single)
    requires
        x.finite(),
    ensures
        x.mirrored().finite(),
        x.mirrored().value() == -x.value(),
{
    lemma_pow2_pos(149);
    assert(x.mirrored().scaled() == -x.scaled());
    let p = pow2(149) as real;
    lemma_spread(0real, x.value(), p);
    lemma_divided(x.scaled() as real, p);
    lemma_divided(-(x.scaled() as real), p);
    lemma_cancels(x.mirrored().value(), -x.value(), p);
}

proof fn lemma_over_in_order(a: real, b: real, p: real)
    by (nonlinear_arith)
    requires
        0real < p,
    ensures
        a / p <= b / p <==> a <= b,
        a / p < b / p <==> a < b,
{
}

/// The comparisons decided on bit patterns are those of the numbers.
pub proof fn lemma_in_order(a: Double, b: Double)
    requires
        a.finite(),
        b.finite(),
    ensures
        a.less(b) <==> a.value() < b.value(),
        a.at_most(b) <==> a.value() <= b.value(),
{
    law_order_is_numeric(a, b);
    lemma_pow2_pos(1074);
    lemma_over_in_order(a.scaled() as real, b.scaled() as real, pow2(1074) as real);
}

proof fn lemma_units_increase(a: int, b: int, step: int)
    requires
        0 <= a < b,
        1 <= step,
    ensures
        0 <= units(a, step) < units(b, step),
    decreases b - a,
{
    let (e, f) = (a / step, a % step);
    vstd::arithmetic::div_mod::lemma_fundamental_div_mod(a, step);
    assert(0 <= e) by (nonlinear_arith)
        requires
            0 <= a,
            1 <= step,
            e == a / step,
    ;
    assert(0 <= f < step) by (nonlinear_arith)
        requires
            1 <= step,
            f == a % step,
    ;
    let p = if e >= 1 {
        pow2((e - 1) as nat) as int
    } else {
        1
    };
    if e >= 1 {
        lemma_pow2_pos((e - 1) as nat);
    }
    assert(0 <= (step + f) * p) by (nonlinear_arith)
        requires
            0 <= step + f,
            0 <= p,
    ;
    if f + 1 < step {
        vstd::arithmetic::div_mod::lemma_fundamental_div_mod_converse(a + 1, step, e, f + 1);
        assert((step + (f + 1)) * p == (step + f) * p + p) by (nonlinear_arith);
    } else {
        assert((e + 1) * step == e * step + step) by (nonlinear_arith);
        assert(step * e == e * step) by (nonlinear_arith);
        vstd::arithmetic::div_mod::lemma_fundamental_div_mod_converse(a + 1, step, e + 1, 0);
        if e >= 1 {
            lemma_pow2_unfold(e as nat);
            assert((step + 0) * (2 * p) == (step + f) * p + p) by (nonlinear_arith)
                requires
                    f + 1 == step,
            ;
        } else {
            assert(pow2(0) == 1) by {
                vstd::arithmetic::power2::lemma2_to64();
            }
            assert((step + 0) * 1 == f + 1);
        }
    }
    if a + 1 < b {
        lemma_units_increase(a + 1, b, step);
    }
}

pub proof fn lemma_in_order_single(a: Single, b: Single)
    requires
        a.finite(),
        b.finite(),
    ensures
        a.less(b) <==> a.value() < b.value(),
        a.at_most(b) <==> a.value() <= b.value(),
{
    let (ma, mb) = (a.magnitude(), b.magnitude());
    let step = 0x80_0000int;
    assert(units(0, step) == 0);
    if ma > 0 {
        lemma_units_increase(0, ma, step);
    }
    if mb > 0 {
        lemma_units_increase(0, mb, step);
    }
    if ma < mb {
        lemma_units_increase(ma, mb, step);
    }
    if mb < ma {
        lemma_units_increase(mb, ma, step);
    }
    lemma_pow2_pos(149);
    lemma_over_in_order(a.scaled() as real, b.scaled() as real, pow2(149) as real);
}

// ---------------------------------------------------------------------------------------------
// the larger and the smaller
// ---------------------------------------------------------------------------------------------

pub proof fn lemma_larger(a: Double, b: Double)
    requires
        a.finite(),
        b.finite(),
    ensures
        a.larger(b).finite(),
        a.larger(b).value() == most(a.value(), b.value()),
        a.smaller(b).finite(),
        a.smaller(b).value() == least(a.value(), b.value()),
{
    lemma_in_order(a, b);
    lemma_in_order(b, a);
}

pub proof fn lemma_larger_single(a: Single, b: Single)
    requires
        a.finite(),
        b.finite(),
    ensures
        a.larger(b).finite(),
        a.larger(b).value() == most(a.value(), b.value()),
        a.smaller(b).finite(),
        a.smaller(b).value() == least(a.value(), b.value()),
{
    lemma_in_order_single(a, b);
    lemma_in_order_single(b, a);
}

/// The larger of two numbers moves no further than they do.
pub proof fn lemma_close_most(x: real, y: real, a: real, b: real, n: int)
    requires
        close(x, a, n),
        close(y, b, n),
        0 <= n <= 1000,
        0real < a,
        0real < b,
    ensures
        close(most(x, y), most(a, b), n),
        close(least(x, y), least(a, b), n),
{
    lemma_close_ends(x, a, n);
    lemma_close_ends(y, b, n);
    lemma_close_ends(most(x, y), most(a, b), n);
    lemma_close_ends(least(x, y), least(a, b), n);
    let (lo, hi) = (1_000_000real - n as real, 1_000_000real + n as real);
    lemma_swap(lo, a);
    lemma_swap(lo, b);
    lemma_swap(hi, a);
    lemma_swap(hi, b);
    if a <= b {
        lemma_scales(a, b, lo);
        lemma_scales(a, b, hi);
    } else {
        lemma_scales(b, a, lo);
        lemma_scales(b, a, hi);
    }
}

/// The whole numbers the formulas are written with.
pub proof fn lemma_small_numbers()
    ensures
        (Double { bits: 0 }).finite() && (Double { bits: 0 }).value() == 0real,
        (Double { bits: 0x3ff0_0000_0000_0000 }).finite(),
        (Double { bits: 0x3ff0_0000_0000_0000 }).value() == 1real,
        (Double { bits: 0xbff0_0000_0000_0000 }).finite(),
        (Double { bits: 0xbff0_0000_0000_0000 }).value() == -1real,
        (Double { bits: 0x4000_0000_0000_0000 }).finite(),
        (Double { bits: 0x4000_0000_0000_0000 }).value() == 2real,
        (Double { bits: 0x4024_0000_0000_0000 }).finite(),
        (Double { bits: 0x4024_0000_0000_0000 }).value() == 10real,
        (Single { bits: 0x3f80_0000 }).finite(),
        (Single { bits: 0x3f80_0000 }).value() == 1real,
        (Single { bits: 0x4000_0000 }).finite(),
        (Single { bits: 0x4000_0000 }).value() == 2real,
{
    vstd::arithmetic::power2::lemma2_to64();
    lemma_pow2_pos(1074);
    lemma_divided(0real, pow2(1074) as real);
    assert((Double { bits: 0 }).scaled() == 0);
    lemma_zero_over(pow2(1074) as real);
    let one = Double { bits: 0x3ff0_0000_0000_0000 };
    lemma_double_above_one(one, 0, 0);
    lemma_mirrored(one);
    assert(one.mirrored() == Double { bits: 0xbff0_0000_0000_0000 });
    lemma_double_above_one(Double { bits: 0x4000_0000_0000_0000 }, 1, 0);
    lemma_double_above_one(Double { bits: 0x4024_0000_0000_0000 }, 3, 0x4_0000_0000_0000);
    lemma_single_above_one(Single { bits: 0x3f80_0000 }, 0, 0);
    lemma_single_above_one(Single { bits: 0x4000_0000 }, 1, 0);
}

proof fn lemma_zero_over(p: real)
    by (nonlinear_arith)
    requires
        0real < p,
    ensures
        0real / p == 0real,
{
}

pub proof fn lemma_negative_inverse(y: real)
    by (nonlinear_arith)
    requires
        0real < y,
    ensures
        -1real / y == -(1real / y),
        -2real / y == -(2real * (1real / y)),
{
}

pub proof fn lemma_exponential_of_zero(e: spec_fn(real) -> real)
    requires
        is_exponential(e),
    ensures
        e(0real) == 1real,
{
    let x = e(0real);
    assert(e(0real + 0real) == x * x);
    lemma_cancels(x, 1real, x);
}

/// The machine's square roots are roots: their squares are what they were taken of.
pub open spec fn takes_roots<R: Reals>(r: &R) -> bool {
    &&& forall|x: Double|
        x.finite() && 0real < x.value() && moderate(x.value()) ==> {
            &&& (#[trigger] r.root_of(x)).finite()
            &&& 0real < r.root_of(x).value()
            &&& close(r.root_of(x).value() * r.root_of(x).value(), x.value(), 3)
        }
}

/// Two numbers are at most a millionth apart.
pub open spec fn apart(x: real, y: real) -> bool {
    size(x - y) * 1_000_000real <= 1real
}

/// The machine's sines and cosines are those of two functions, to a millionth.
pub open spec fn turns<R: Reals>(
    r: &R,
    cosine: spec_fn(real) -> real,
    sine: spec_fn(real) -> real,
) -> bool {
    &&& forall|x: Double|
        x.finite() ==> (#[trigger] r.cosine_of(x)).finite() && apart(
            r.cosine_of(x).value(),
            cosine(x.value()),
        )
    &&& forall|x: Double|
        x.finite() ==> (#[trigger] r.sine_of(x)).finite() && apart(
            r.sine_of(x).value(),
            sine(x.value()),
        )
}

/// A difference that is above zero.
pub proof fn lemma_minus<R: Reals>(r: &R, a: Double, b: Double)
    requires
        rounds(r),
        a.finite(),
        b.finite(),
        tame(a.value() - b.value()),
    ensures
        r.minus_of(a, b).finite(),
        close(r.minus_of(a, b).value(), a.value() - b.value(), 1),
{
    assert(gives(r.minus_of(a, b), a.value() - b.value()));
}

/// What one sample's share of a decay comes to: the exponential of something close to it.
pub proof fn lemma_decays<R: Reals>(r: &R, e: spec_fn(real) -> real, a: Double, x: real, n: int)
    requires
        is_exponential(e),
        exponentiates(r, e),
        a.finite(),
        0real < x,
        close(-a.value(), x, n),
        0 <= n <= 1000,
        moderate(e(-(2real * x))),
    ensures
        r.exp_of(a).finite(),
        close(r.exp_of(a).value(), e(a.value()), 1),
{
    lemma_close_sign(-a.value(), x, n);
    lemma_exponential_of_zero(e);
    assert(e(-(2real * x)) < e(a.value()) && e(a.value()) < e(0real));
    assert(gives(r.exp_of(a), e(a.value())));
}

pub proof fn lemma_logarithm_of_one(l: spec_fn(real) -> real)
    requires
        forall|x: real, y: real| 0real < x && 0real < y ==> #[trigger] l(x * y) == l(x) + l(y),
    ensures
        l(1real) == 0real,
{
    assert(l(1real * 1real) == l(1real) + l(1real));
}

/// A constant of ordinary size times a logarithm is moderate.
pub proof fn lemma_moderate_product(c: real, x: real)
    requires
        1real <= c <= 1000real,
        size(x) <= 100_000real,
        x == 0real || 1real <= size(x) * 100_000_000_000_000_000_000real,
    ensures
        moderate(c * x),
{
    if x > 0real {
        lemma_scales(1real, c, x);
        lemma_scales(c, 1000real, x);
    } else if x < 0real {
        lemma_scales(1real, c, -x);
        lemma_scales(c, 1000real, -x);
        lemma_spread(0real, x, c);
        lemma_swap(c, -x);
        lemma_swap(c, x);
    } else {
        lemma_nothing(c);
    }
}

/// Scaling by what is close to a scale.
pub proof fn lemma_close_scaled(a: real, b: real, x: real, y: real)
    requires
        close(a, b, 1),
        close(x, y, 1),
        0real < b,
    ensures
        close(a * x, b * y, 3),
{
    if y > 0real {
        lemma_close_product(a, x, b, y, 1, 1);
    } else if y < 0real {
        lemma_close_mirrored(x, y, 1);
        lemma_close_product(a, -x, b, -y, 1, 1);
        lemma_spread(0real, x, a);
        lemma_swap(a, -x);
        lemma_swap(a, x);
        lemma_spread(0real, y, b);
        lemma_swap(b, -y);
        lemma_swap(b, y);
        lemma_close_mirrored(a * x, b * y, 3);
    } else {
        lemma_close_sign(x, y, 1);
        lemma_nothing(a);
        lemma_nothing(b);
        lemma_nothing(3real);
    }
}

proof fn lemma_nothing(a: real)
    by (nonlinear_arith)
    ensures
        a * 0real == 0real,
{
}

/// A millionth apart.
pub proof fn lemma_within_a_millionth(x: real, y: real)
    requires
        size(x - y) * 1_000_000real <= size(y),
    ensures
        close(x, y, 1),
{
    lemma_one_times(size(y));
}

proof fn lemma_one_times(a: real)
    by (nonlinear_arith)
    ensures
        1int as real * a == a,
{
}

pub proof fn lemma_inverse_square(x: real)
    requires
        0real < x,
    ensures
        0real < x * x,
        (1real / x) * (1real / x) == 1real / (x * x),
        0real < (1real / x) * (1real / x),
{
    let i = 1real / x;
    lemma_above(x, x);
    lemma_inverse_above(x);
    lemma_above(i, i);
    lemma_divided(1real, x);
    lemma_divided(1real, x * x);
    // i i x x is one.
    lemma_regroup(i, i, x * x);
    lemma_regroup(i, x, x);
    lemma_swap(i, 1real * x);
    assert(i * (x * x) == x);
    lemma_cancels(i * i, 1real / (x * x), x * x);
}

pub proof fn lemma_divides_out(v: real)
    requires
        0real < v,
    ensures
        (1real / v) * v == 1real,
        0real < 1real / v,
{
    lemma_divided(1real, v);
    lemma_inverse_above(v);
}

/// The least normal number is below anything tame.
pub proof fn lemma_least_normal(x: Double, y: real)
    requires
        x.finite(),
        tame(y),
        close(x.value(), y, 9),
    ensures
        (Double { bits: 0x0010_0000_0000_0000 }).finite(),
        (Double { bits: 0x0010_0000_0000_0000 }).value() <= x.value(),
{
    let tiny = Double { bits: 0x0010_0000_0000_0000 };
    let step = 0x10_0000_0000_0000int;
    lemma_close_sign(x.value(), y, 9);
    vstd::arithmetic::power2::lemma2_to64();
    assert(tiny.magnitude() / step == 1 && tiny.magnitude() % step == 0);
    assert(tiny.scaled() == (step + 0) * pow2(0));
    lemma_pow2_adds(64, 64);
    lemma_pow2_pos(1074);
    lemma_pow2_adds(128, 946);
    lemma_pow2_pos(946);
    // 2^1074 is 2^128 times 2^946, and 2^946 is at least 2^52.
    lemma_two_to_52();
    lemma_pow2_adds(52, 894);
    lemma_pow2_pos(894);
    let (p, q, d) = (pow2(1074) as int, pow2(946) as int, pow2(894) as int);
    assert(q == step * d);
    assert(step <= q) by (nonlinear_arith)
        requires
            q == step * d,
            d >= 1,
            step >= 0,
    ;
    assert(p == 0x1_0000_0000_0000_0000_0000_0000_0000_0000 * q) by {
        assert(pow2(128) == 0x1_0000_0000_0000_0000_0000_0000_0000_0000);
    }
    assert(p >= 1_000_000_000_000_000_000_000_000_000_000_000 * 0x10_0000_0000_0000);
    let v = tiny.value();
    lemma_divided(step as real, p as real);
    assert(p as real >= 1_000_000_000_000_000_000_000_000_000_000_000real * 0x10_0000_0000_0000real);
    lemma_tiny_ratio(v, step as real, p as real);
}

proof fn lemma_tiny_ratio(v: real, s: real, p: real)
    requires
        v * p == s,
        0real < s,
        1_000_000_000_000_000_000_000_000_000_000_000real * s <= p,
        0real < p,
    ensures
        v * 1_000_000_000_000_000_000_000_000_000_000_000real <= 1real,
{
    let c = 1_000_000_000_000_000_000_000_000_000_000_000real;
    // v p c is s c, which is at most p.
    lemma_regroup(v, p, c);
    lemma_regroup(v, c, p);
    lemma_swap(p, c);
    lemma_swap(s, c);
    if v * c > 1real {
        lemma_above(v * c - 1real, p);
        lemma_spread(v * c, 1real, p);
    }
}

/// `x` is `y` rounded.
pub open spec fn rounded(x: real, y: real) -> bool {
    moderate(y) ==> close(x, y, 1)
}

/// The machine's steps up and down are to whole numbers, within what a count can hold.
pub open spec fn steps<R: Reals>(r: &R) -> bool {
    &&& forall|x: Single|
        x.finite() && 0real <= x.value() <= 1_000_000_000real ==> {
            let up = #[trigger] r.whole_single_of(r.ceil_single_of(x));
            x.value() <= up as real && (up as real) < x.value() + 1real
        }
    &&& forall|x: Single|
        x.finite() && 0real <= x.value() <= 1_000_000_000real ==> {
            let down = #[trigger] r.whole_single_of(r.floor_single_of(x));
            down as real <= x.value() && x.value() < down as real + 1real
        }
    &&& forall|x: Double|
        x.finite() && 0real <= x.value() <= 1_000_000_000real ==> {
            let down = #[trigger] r.whole_of(x);
            down as real <= x.value() && x.value() < down as real + 1real
        }
    &&& forall|x: Single|
        x.finite() && 0real <= x.value() <= 1_000_000_000real ==> {
            let down = #[trigger] r.whole_single_of(x);
            down as real <= x.value() && x.value() < down as real + 1real
        }
}

/// A number without its sign stands for its size.
pub proof fn lemma_unsigned(x: Double)
    requires
        x.finite(),
    ensures
        x.unsigned().finite(),
        x.unsigned().value() == size(x.value()),
{
    let zero = Double { bits: 0 };
    lemma_small_numbers();
    if x.negative() {
        assert(x.unsigned() == x.mirrored());
        lemma_mirrored(x);
    } else {
        assert(x.unsigned() == x);
    }
    lemma_in_order(zero, x.unsigned());
}

/// A number without its sign stands for its size.
pub proof fn lemma_unsigned_single(x: Single)
    requires
        x.finite(),
    ensures
        x.unsigned().finite(),
        x.unsigned().value() == size(x.value()),
{
    let zero = Single { bits: 0 };
    lemma_nothing_single();
    if x.negative() {
        assert(x.unsigned() == x.mirrored());
        lemma_mirrored_single(x);
    } else {
        assert(x.unsigned() == x);
    }
    lemma_in_order_single(zero, x.unsigned());
}

/// `x` is `y` to within `d`.
pub open spec fn within(x: real, y: real, d: real) -> bool {
    size(x - y) <= d
}

/// `k` is the whole part of `u`.
pub open spec fn is_whole_part(k: int, u: real) -> bool {
    k as real <= u && u < k as real + 1real
}

/// An operation gives `y` to within `err`.
pub open spec fn near(x: Double, y: real, err: real) -> bool {
    x.finite() && size(x.value() - y) <= err
}

/// The machine's sums, differences and products are right to within `err` as far as `limit`, and
/// widening loses nothing. An IEEE machine is steady as far as any limit it can hold, with an error of
/// the limit over `2^53`.
pub open spec fn steady<R: Reals>(r: &R, limit: real, err: real) -> bool {
    &&& forall|a: Double, b: Double|
        a.finite() && b.finite() && size(a.value() + b.value()) <= limit ==> near(
            #[trigger] r.plus_of(a, b),
            a.value() + b.value(),
            err,
        )
    &&& forall|a: Double, b: Double|
        a.finite() && b.finite() && size(a.value() - b.value()) <= limit ==> near(
            #[trigger] r.minus_of(a, b),
            a.value() - b.value(),
            err,
        )
    &&& forall|a: Double, b: Double|
        a.finite() && b.finite() && size(a.value() * b.value()) <= limit ==> near(
            #[trigger] r.times_of(a, b),
            a.value() * b.value(),
            err,
        )
    &&& forall|x: Single|
        x.finite() ==> (#[trigger] r.widen_of(x)).finite() && r.widen_of(x).value() == x.value()
}

/// An operation on singles gives `y` to within `err`.
pub open spec fn near_single(x: Single, y: real, err: real) -> bool {
    x.finite() && size(x.value() - y) <= err
}

/// The machine's sums and products of singles are right to within `err` as far as `limit`.
pub open spec fn steady_single<R: Reals>(r: &R, limit: real, err: real) -> bool {
    &&& forall|a: Single, b: Single|
        a.finite() && b.finite() && size(a.value() + b.value()) <= limit ==> near_single(
            #[trigger] r.plus_single_of(a, b),
            a.value() + b.value(),
            err,
        )
    &&& forall|a: Single, b: Single|
        a.finite() && b.finite() && size(a.value() * b.value()) <= limit ==> near_single(
            #[trigger] r.times_single_of(a, b),
            a.value() * b.value(),
            err,
        )
}

pub proof fn lemma_more(n: int, m: int, err: real)
    ensures
        (n + m) as real * err == n as real * err + m as real * err,
{
    lemma_spread(n as real, m as real, err);
}

/// A factor takes an error with it.
pub proof fn lemma_scaled_error(a: real, x: real, y: real, d: real)
    requires
        0real <= a,
        size(x - y) <= d,
    ensures
        size(a * x - a * y) <= a * d,
{
    lemma_scales(x - y, d, a);
    lemma_scales(-(x - y), d, a);
    lemma_spread(x, y, a);
    lemma_spread(y, x, a);
    lemma_swap(x, a);
    lemma_swap(y, a);
    lemma_swap(d, a);
    assert(-(x - y) == y - x);
}

/// The machine's natural logarithms of singles are those of `l`.
pub open spec fn takes_logs_single<R: Reals>(r: &R, l: spec_fn(real) -> real) -> bool {
    forall|x: Single|
        x.finite() && 0real < x.value() ==> {
            let y = #[trigger] r.ln_single_of(x);
            y.finite() && close(y.value(), l(x.value()), 1)
        }
}

/// One more step makes one more error.
pub proof fn lemma_one_more(n: int, err: real)
    requires
        0real <= err,
        n >= 0,
    ensures
        (n + 1) as real * err == n as real * err + err,
        0real <= n as real * err,
{
    lemma_spread(n as real, 1real, err);
    lemma_scales(0real, n as real, err);
}

pub proof fn lemma_fewer(n: int, m: int, err: real)
    requires
        0real <= err,
        n <= m,
    ensures
        n as real * err <= m as real * err,
{
    lemma_scales(n as real, m as real, err);
}

/// What is close to a quotient is, times the divisor, close to what was divided.
pub proof fn lemma_close_undivided(q: real, a: real, w: real, n: int)
    requires
        close(q, a / w, n),
        0real < a,
        0real < w,
        0 <= n <= 400,
    ensures
        (1_000_000real - (n + 1) as real) * a <= 1_000_000real * (q * w),
        1_000_000real * (q * w) <= (1_000_000real + (n + 1) as real) * a,
{
    lemma_ratio_is_product(a, w);
    lemma_inverse_above(w);
    lemma_above(a, 1real / w);
    lemma_close_to_itself(w, 0);
    lemma_close_product(q, w, a / w, w, n, 0);
    lemma_divided(a, w);
    lemma_close_ends(q * w, a, n + 1);
}

pub proof fn lemma_in_proportion(a: real, b: real, w: real)
    requires
        a <= b,
        0real <= w,
    ensures
        a * w <= b * w,
{
    lemma_scales(a, b, w);
}

pub proof fn lemma_strictly_in_proportion(a: real, b: real, w: real)
    requires
        a < b,
        0real < w,
    ensures
        a * w < b * w,
{
    lemma_above(b - a, w);
    lemma_spread(b, a, w);
}

pub proof fn lemma_over_itself(x: real)
    requires
        0real < x,
    ensures
        x / x == 1real,
{
    lemma_divided(x, x);
    lemma_cancels(x / x, 1real, x);
}

/// One more rounding on top of many.
pub proof fn lemma_close_once_more(x: real, y: real, z: real, m: int)
    requires
        close(x, y, 1),
        close(y, z, m),
        0 <= m <= 1_000_000,
    ensures
        close(x, z, m + 2),
{
    let b = m as real;
    lemma_one_times(size(y));
    lemma_scales(b, 1_000_000real, size(z));
    lemma_spread(b, 2real, size(z));
    assert((m + 2) as real == b + 2real);
}

/// The machine's hypotenuses are those of right triangles.
pub open spec fn takes_hypots<R: Reals>(r: &R) -> bool {
    forall|a: Double, b: Double|
        a.finite() && b.finite() && tame(a.value() * a.value() + b.value() * b.value()) ==> {
            let h = #[trigger] r.hypot_of(a, b);
            &&& h.finite()
            &&& 0real < h.value()
            &&& tame(h.value())
            &&& close(h.value() * h.value(), a.value() * a.value() + b.value() * b.value(), 3)
        }
}

/// The circle constants, and their nearest numbers.
pub proof fn lemma_circle_constants()
    ensures
        (Double { bits: 0x4009_21fb_5444_2d18 }).finite(),
        close((Double { bits: 0x4009_21fb_5444_2d18 }).value(), 3_141_593real / 1_000_000real, 1),
        (Double { bits: 0x4019_21fb_5444_2d18 }).finite(),
        close((Double { bits: 0x4019_21fb_5444_2d18 }).value(), 6_283_185real / 1_000_000real, 1),
        (Single { bits: 0x4049_0fdb }).finite(),
        close((Single { bits: 0x4049_0fdb }).value(), 3_141_593real / 1_000_000real, 1),
{
    vstd::arithmetic::power2::lemma2_to64();
    lemma_double_above_one(Double { bits: 0x4009_21fb_5444_2d18 }, 1, 0x9_21fb_5444_2d18);
    lemma_double_above_one(Double { bits: 0x4019_21fb_5444_2d18 }, 2, 0x9_21fb_5444_2d18);
    lemma_single_above_one(Single { bits: 0x4049_0fdb }, 1, 0x49_0fdb);
    lemma_within_a_millionth(
        (Double { bits: 0x4009_21fb_5444_2d18 }).value(),
        3_141_593real / 1_000_000real,
    );
    lemma_within_a_millionth(
        (Double { bits: 0x4019_21fb_5444_2d18 }).value(),
        6_283_185real / 1_000_000real,
    );
    lemma_within_a_millionth((Single { bits: 0x4049_0fdb }).value(), 3_141_593real / 1_000_000real);
}

/// A square is not below zero, and is zero only of zero.
pub proof fn lemma_square_above(x: real)
    by (nonlinear_arith)
    ensures
        0real <= x * x,
        x == 0real ==> x * x == 0real,
        x != 0real ==> 0real < x * x,
{
}

/// Even off by nine tenths, what is close to something tame is moderate.
pub proof fn lemma_close_far(x: real, y: real, n: int)
    requires
        close(x, y, n),
        0 <= n <= 900_000,
        y == 0real || tame(y),
    ensures
        moderate(x),
{
    lemma_scales(n as real, 900_000real, size(y));
}

pub proof fn lemma_mirrored_ratio(a: real, b: real)
    by (nonlinear_arith)
    requires
        0real < b,
    ensures
        -a / b == -(a / b),
{
}

pub proof fn lemma_a_thousand()
    ensures
        (Double { bits: 0x408f_4000_0000_0000 }).finite(),
        (Double { bits: 0x408f_4000_0000_0000 }).value() == 1000real,
{
    vstd::arithmetic::power2::lemma2_to64();
    lemma_double_above_one(Double { bits: 0x408f_4000_0000_0000 }, 9, 0xf_4000_0000_0000);
}

pub proof fn lemma_nothing_single()
    ensures
        (Single { bits: 0 }).finite(),
        (Single { bits: 0 }).value() == 0real,
{
    lemma_pow2_pos(149);
    assert((Single { bits: 0 }).scaled() == 0);
    lemma_zero_over(pow2(149) as real);
}

} // verus!
