//! What a decimation filter puts out.
//!
//! The inner products are taken in eight lanes where the whole filter fits, and tap by tap at the ends.
//! Either way they come to the same sum.

use crate::decimate::{dot_of, dot_to, edge_to, filtered, lane, lanes, Decimator};
use crate::ieee::Single;
use crate::reals::Reals;
use crate::rounding::{
    lemma_fewer, lemma_more, lemma_mirrored_single, lemma_nothing_single, lemma_one_more, near_single, size,
    steady_single,
};
use vstd::prelude::*;

verus! {

/// The inner product of the first `n` samples.
pub open spec fn dots(a: Seq<Single>, b: Seq<Single>, n: int) -> real
    decreases n,
{
    if n <= 0 {
        0real
    } else {
        dots(a, b, n - 1) + a[n - 1].value() * b[n - 1].value()
    }
}

/// The inner product of every eighth sample from the `k`th on, of the first `n` rows of eight.
spec fn strided(a: Seq<Single>, b: Seq<Single>, k: int, n: int) -> real
    decreases n,
{
    if n <= 0 {
        0real
    } else {
        strided(a, b, k, n - 1) + a[8 * (n - 1) + k].value() * b[8 * (n - 1) + k].value()
    }
}

spec fn combined(a: Seq<Single>, b: Seq<Single>, k: int, n: int) -> real
    decreases k,
{
    if k <= 0 {
        0real
    } else {
        combined(a, b, k - 1, n) + strided(a, b, k - 1, n)
    }
}

/// Two runs of samples whose products are no larger than `c`, on a machine that can add them all.
pub open spec fn can_multiply<R: Reals>(
    r: &R,
    a: Seq<Single>,
    b: Seq<Single>,
    c: real,
    limit: real,
    err: real,
) -> bool {
    &&& steady_single(r, limit, err)
    &&& 0real <= err
    &&& 0real <= c
    &&& a.len() == b.len()
    &&& forall|i: int| 0 <= i < a.len() ==> (#[trigger] a[i]).finite() && size(a[i].value() * b[i].value()) <= c
    &&& forall|i: int| 0 <= i < b.len() ==> (#[trigger] b[i]).finite()
    &&& (a.len() + 1) as real * c + (2 * a.len() + 8) as real * err <= limit
}

proof fn lemma_room(n: int, e: int, total: int, c: real, limit: real, err: real)
    requires
        0real <= c,
        0real <= err,
        0 <= n <= total + 1,
        0 <= e <= 2 * total + 8,
        (total + 1) as real * c + (2 * total + 8) as real * err <= limit,
    ensures
        n as real * c + e as real * err <= limit,
{
    lemma_fewer(n, total + 1, c);
    lemma_fewer(e, 2 * total + 8, err);
}

proof fn lemma_a_lane<R: Reals>(
    r: &R,
    a: Seq<Single>,
    b: Seq<Single>,
    c: real,
    limit: real,
    err: real,
    k: int,
    n: int,
)
    requires
        can_multiply(r, a, b, c, limit, err),
        0 <= k < 8,
        0 <= n <= a.len() as int / 8,
    ensures
        near_single(lane(r, a, b, k, n), strided(a, b, k, n), (2 * n) as real * err),
        size(strided(a, b, k, n)) <= n as real * c,
    decreases n,
{
    lemma_nothing_single();
    if n == 0 {
        lemma_zero_times(err);
        lemma_zero_times(c);
    } else {
        lemma_a_lane(r, a, b, c, limit, err, k, n - 1);
        let i = 8 * (n - 1) + k;
        let (x, y) = (a[i], b[i]);
        assert(a[i].finite() && size(a[i].value() * b[i].value()) <= c);
        assert(b[i].finite());
        lemma_one_more(n - 1, c);
        lemma_one_more(2 * (n - 1), err);
        lemma_one_more(2 * (n - 1) + 1, err);
        lemma_room(n, 2 * n, a.len() as int, c, limit, err);
        lemma_room(1, 0, a.len() as int, c, limit, err);
        lemma_zero_times(err);
        assert(1int as real * c == c) by (nonlinear_arith);
        let before = lane(r, a, b, k, n - 1);
        let p = r.times_single_of(x, y);
        assert(near_single(p, x.value() * y.value(), err));
        assert(near_single(r.plus_single_of(before, p), before.value() + p.value(), err));
    }
}

proof fn lemma_zero_times(x: real)
    by (nonlinear_arith)
    ensures
        0int as real * x == 0real,
{
}

proof fn lemma_some_lanes<R: Reals>(
    r: &R,
    a: Seq<Single>,
    b: Seq<Single>,
    c: real,
    limit: real,
    err: real,
    k: int,
)
    requires
        can_multiply(r, a, b, c, limit, err),
        0 <= k <= 8,
    ensures
        ({
            let n = a.len() as int / 8;
            &&& near_single(lanes(r, a, b, k), combined(a, b, k, n), (k * (2 * n + 1)) as real * err)
            &&& size(combined(a, b, k, n)) <= (k * n) as real * c
        }),
    decreases k,
{
    let n = a.len() as int / 8;
    if k == 0 {
        lemma_nothing_single();
        lemma_mirrored_single(Single { bits: 0 });
        assert((Single { bits: 0 }).mirrored() == Single { bits: 0x8000_0000 });
        assert(0 * (2 * n + 1) == 0 && 0 * n == 0) by (nonlinear_arith);
        lemma_zero_times(err);
        lemma_zero_times(c);
    } else {
        lemma_some_lanes(r, a, b, c, limit, err, k - 1);
        lemma_a_lane(r, a, b, c, limit, err, k - 1, n);
        assert(k * (2 * n + 1) == (k - 1) * (2 * n + 1) + 2 * n + 1) by (nonlinear_arith);
        assert(k * n == (k - 1) * n + n) by (nonlinear_arith);
        assert(0 <= (k - 1) * (2 * n + 1) && 0 <= (k - 1) * n && k * n <= 8 * n && k * (2 * n + 1) <= 8 * (2
            * n + 1)) by (nonlinear_arith)
            requires
                1 <= k <= 8,
                0 <= n,
        ;
        lemma_more((k - 1) * (2 * n + 1), 2 * n, err);
        lemma_one_more((k - 1) * (2 * n + 1) + 2 * n, err);
        lemma_more((k - 1) * n, n, c);
        lemma_room(k * n, k * (2 * n + 1), a.len() as int, c, limit, err);
        let (x, y) = (lanes(r, a, b, k - 1), lane(r, a, b, k - 1, n));
        assert(near_single(r.plus_single_of(x, y), x.value() + y.value(), err));
    }
}

/// The eight lanes hold every sample of the whole rows once.
proof fn lemma_the_lanes_hold_every_sample(a: Seq<Single>, b: Seq<Single>, n: int)
    requires
        0 <= n,
    ensures
        combined(a, b, 8, n) == dots(a, b, 8 * n),
    decreases n,
{
    reveal_with_fuel(combined, 9);
    if n > 0 {
        lemma_the_lanes_hold_every_sample(a, b, n - 1);
        reveal_with_fuel(dots, 9);
    }
}

proof fn lemma_the_rest<R: Reals>(
    r: &R,
    a: Seq<Single>,
    b: Seq<Single>,
    c: real,
    limit: real,
    err: real,
    n: int,
)
    requires
        can_multiply(r, a, b, c, limit, err),
        a.len() as int / 8 * 8 <= n <= a.len(),
    ensures
        near_single(dot_to(r, a, b, n), dots(a, b, n), (2 * n + 8) as real * err),
        size(dots(a, b, n)) <= n as real * c,
    decreases n,
{
    let rows = a.len() as int / 8;
    if n == rows * 8 {
        lemma_some_lanes(r, a, b, c, limit, err, 8);
        lemma_the_lanes_hold_every_sample(a, b, rows);
        assert(8 * (2 * rows + 1) == 2 * n + 8);
        assert(8 * rows == n);
    } else {
        lemma_the_rest(r, a, b, c, limit, err, n - 1);
        let (x, y) = (a[n - 1], b[n - 1]);
        assert(x.finite() && size(a[n - 1].value() * b[n - 1].value()) <= c);
        assert(y.finite());
        lemma_one_more(n - 1, c);
        lemma_one_more(2 * (n - 1) + 8, err);
        lemma_one_more(2 * (n - 1) + 9, err);
        lemma_room(n, 2 * n + 8, a.len() as int, c, limit, err);
        lemma_room(1, 0, a.len() as int, c, limit, err);
        lemma_zero_times(err);
        assert(1int as real * c == c) by (nonlinear_arith);
        let before = dot_to(r, a, b, n - 1);
        let p = r.times_single_of(x, y);
        assert(near_single(p, x.value() * y.value(), err));
        assert(near_single(r.plus_single_of(before, p), before.value() + p.value(), err));
    }
}

/// An inner product in lanes is the inner product: the sum of the samples' products, each once, to within two
/// of the machine's errors a sample and one a lane.
pub proof fn law_lanes_make_an_inner_product<R: Reals>(
    r: &R,
    a: Seq<Single>,
    b: Seq<Single>,
    c: real,
    limit: real,
    err: real,
)
    requires
        can_multiply(r, a, b, c, limit, err),
    ensures
        near_single(dot_of(r, a, b), dots(a, b, a.len() as int), (2 * a.len() + 8) as real * err),
{
    lemma_the_rest(r, a, b, c, limit, err, a.len() as int);
}

/// What the first `n` taps of a filter centred on a sample make of a residual, which is nothing outside.
pub open spec fn convolved(d: Decimator, residual: Seq<Single>, centre: int, n: int) -> real
    decreases n,
{
    if n <= 0 {
        0real
    } else {
        let i = centre + n - 1 - d.half;
        convolved(d, residual, centre, n - 1) + if 0 <= i < residual.len() {
            d.taps@[n - 1].value() * residual[i].value()
        } else {
            0real
        }
    }
}

proof fn lemma_inside_it_is_an_inner_product(d: Decimator, residual: Seq<Single>, centre: int, n: int)
    requires
        d.half <= centre,
        centre + d.half < residual.len(),
        0 <= n <= 2 * d.half + 1,
    ensures
        convolved(d, residual, centre, n) == dots(
            d.taps@,
            residual.subrange(centre - d.half, centre + d.half + 1),
            n,
        ),
    decreases n,
{
    if n > 0 {
        lemma_inside_it_is_an_inner_product(d, residual, centre, n - 1);
    }
}

/// At an end of the residual a filter's output is the sum of the taps that reach it, each times the sample
/// under it, to within two errors a tap.
pub proof fn law_the_ends_are_filtered_by_the_taps_that_reach<R: Reals>(
    r: &R,
    d: Decimator,
    residual: Seq<Single>,
    centre: int,
    n: int,
    c: real,
    limit: real,
    err: real,
)
    requires
        steady_single(r, limit, err),
        0real <= err,
        0real <= c,
        0 <= n <= d.taps@.len(),
        forall|i: int| 0 <= i < d.taps@.len() ==> (#[trigger] d.taps@[i]).finite(),
        forall|i: int| 0 <= i < residual.len() ==> (#[trigger] residual[i]).finite(),
        forall|i: int, j: int|
            0 <= i < d.taps@.len() && 0 <= j < residual.len() ==> size(
                (#[trigger] d.taps@[i]).value() * (#[trigger] residual[j]).value(),
            ) <= c,
        (d.taps@.len() + 1) as real * c + (2 * d.taps@.len() + 8) as real * err <= limit,
    ensures
        near_single(
            edge_to(r, d, residual, centre, n),
            convolved(d, residual, centre, n),
            (2 * n) as real * err,
        ),
        size(convolved(d, residual, centre, n)) <= n as real * c,
    decreases n,
{
    lemma_nothing_single();
    if n == 0 {
        lemma_zero_times(err);
        lemma_zero_times(c);
    } else {
        law_the_ends_are_filtered_by_the_taps_that_reach(
            r,
            d,
            residual,
            centre,
            n - 1,
            c,
            limit,
            err,
        );
        lemma_one_more(n - 1, c);
        lemma_one_more(2 * (n - 1), err);
        lemma_one_more(2 * (n - 1) + 1, err);
        lemma_room(n, 2 * n, d.taps@.len() as int, c, limit, err);
        lemma_room(1, 0, d.taps@.len() as int, c, limit, err);
        lemma_zero_times(err);
        assert(1int as real * c == c) by (nonlinear_arith);
        let i = centre + n - 1 - d.half;
        if 0 <= i < residual.len() {
            let (x, y) = (d.taps@[n - 1], residual[i]);
            let before = edge_to(r, d, residual, centre, n - 1);
            let p = r.times_single_of(x, y);
            assert(near_single(p, x.value() * y.value(), err));
            assert(near_single(r.plus_single_of(before, p), before.value() + p.value(), err));
        }
    }
}

/// Output `m` of a decimator is its filter centred on sample `m` times the factor: every tap times the
/// sample under it, together, with nothing outside the residual.
pub proof fn law_an_output_is_the_filter_centred_on_it<R: Reals>(
    r: &R,
    d: Decimator,
    residual: Seq<Single>,
    m: int,
    c: real,
    limit: real,
    err: real,
)
    requires
        d.wf(),
        steady_single(r, limit, err),
        0real <= err,
        0real <= c,
        forall|i: int| 0 <= i < d.taps@.len() ==> (#[trigger] d.taps@[i]).finite(),
        forall|i: int| 0 <= i < residual.len() ==> (#[trigger] residual[i]).finite(),
        forall|i: int, j: int|
            0 <= i < d.taps@.len() && 0 <= j < residual.len() ==> size(
                (#[trigger] d.taps@[i]).value() * (#[trigger] residual[j]).value(),
            ) <= c,
        (d.taps@.len() + 1) as real * c + (2 * d.taps@.len() + 8) as real * err <= limit,
    ensures
        near_single(
            filtered(r, d, residual, m),
            convolved(d, residual, m * d.factor, d.taps@.len() as int),
            (2 * d.taps@.len() + 8) as real * err,
        ),
{
    let centre = m * d.factor;
    let n = d.taps@.len() as int;
    if centre >= d.half && centre + d.half < residual.len() {
        let part = residual.subrange(centre - d.half, centre + d.half + 1);
        assert forall|i: int| 0 <= i < n implies (#[trigger] d.taps@[i]).finite() && size(
            d.taps@[i].value() * part[i].value(),
        ) <= c by {
            assert(part[i] == residual[centre - d.half + i]);
        }
        law_lanes_make_an_inner_product(r, d.taps@, part, c, limit, err);
        lemma_inside_it_is_an_inner_product(d, residual, centre, n);
    } else {
        law_the_ends_are_filtered_by_the_taps_that_reach(r, d, residual, centre, n, c, limit, err);
        lemma_fewer(2 * n, 2 * n + 8, err);
    }
}

} // verus!
