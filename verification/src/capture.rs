//! What an envelope's hop is for.
//!
//! Frames sit on a grid, and an atom's onset between two of them. How much of the atom the nearer frame
//! still captures decides how far apart the frames may be.

use crate::dict::{captured, enough, hop_of, law_hop_search_is_the_linear_scan, linear_scan, overlap};
use crate::ieee::{Double, Single};
use crate::reals::Reals;
use crate::rounding::{
    close, gives, lemma_in_order, lemma_nothing_single, lemma_one_more, lemma_small_numbers,
    lemma_square_above, moderate, near, rounds, size, steady, within,
};
use vstd::prelude::*;

verus! {

/// An envelope at a sample, and nothing past either end.
pub open spec fn level_at(env: Seq<Single>, t: int) -> real {
    if 0 <= t < env.len() {
        env[t].value()
    } else {
        0real
    }
}

/// Over the first `n` samples, the product of an envelope `a` samples late and itself `b` samples late.
pub open spec fn product(env: Seq<Single>, a: int, b: int, n: int) -> real
    decreases n,
{
    if n <= 0 {
        0real
    } else {
        product(env, a, b, n - 1) + level_at(env, n - 1 - a) * level_at(env, n - 1 - b)
    }
}

/// How far sums over `n` samples may be off: two errors a sample.
pub open spec fn slack_of(n: int, err: real) -> real {
    2real * (n as real * err)
}

/// Half the squares of two numbers, together, are at least the size of their product.
proof fn lemma_product_of_two(x: real, y: real)
    by (nonlinear_arith)
    ensures
        2real * (x * y) <= x * x + y * y,
        -(2real * (x * y)) <= x * x + y * y,
{
}

/// The running sums of an overlap are those of the products of the samples.
proof fn lemma_sums_of_an_overlap<R: Reals>(
    r: &R,
    env: Seq<Single>,
    delta: int,
    t: int,
    limit: real,
    err: real,
)
    requires
        steady(r, limit, err),
        0real <= err,
        0 <= t,
        forall|i: int| 0 <= i < env.len() ==> (#[trigger] env[i]).finite(),
        product(env, 0, 0, t) + product(env, delta, delta, t) + 2real * (t as real * err) <= limit,
    ensures
        near(overlap(r, env, delta, t).0, product(env, 0, delta, t), 2real * (t as real * err)),
        near(overlap(r, env, delta, t).1, product(env, 0, 0, t), 2real * (t as real * err)),
        near(overlap(r, env, delta, t).2, product(env, delta, delta, t), 2real * (t as real * err)),
        0real <= product(env, 0, 0, t),
        0real <= product(env, delta, delta, t),
        2real * size(product(env, 0, delta, t)) <= product(env, 0, 0, t) + product(
            env,
            delta,
            delta,
            t,
        ),
    decreases t,
{
    lemma_small_numbers();
    lemma_nothing_single();
    if t == 0 {
        lemma_one_more(0, err);
        assert(1int as real * err == err) by (nonlinear_arith);
    } else {
        lemma_one_more(t - 1, err);
        let (x, y) = (level_at(env, t - 1), level_at(env, t - 1 - delta));
        lemma_square_above(x);
        lemma_square_above(y);
        lemma_product_of_two(x, y);
        lemma_sums_of_an_overlap(r, env, delta, t - 1, limit, err);
        let (dot, ea, eb) = overlap(r, env, delta, t - 1);
        let a = crate::dict::sample_at(r, env, t - 1);
        let b = crate::dict::sample_at(r, env, t - 1 - delta);
        assert(a.finite() && a.value() == x);
        assert(b.finite() && b.value() == y);
        let (ab, aa, bb) = (r.times_of(a, b), r.times_of(a, a), r.times_of(b, b));
        assert(near(ab, x * y, err) && near(aa, x * x, err) && near(bb, y * y, err));
        assert(near(r.plus_of(dot, ab), dot.value() + ab.value(), err));
        assert(near(r.plus_of(ea, aa), ea.value() + aa.value(), err));
        assert(near(r.plus_of(eb, bb), eb.value() + bb.value(), err));
    }
}

/// What a frame captures of an atom that starts `delta` samples after it is the squared normalized
/// correlation of the envelope with itself that much later: the square of their product, over the
/// product of their energies.
pub proof fn law_capture_is_a_normalized_correlation<R: Reals>(
    r: &R,
    env: Seq<Single>,
    delta: int,
    fft_len: int,
    limit: real,
    err: real,
)
    requires
        rounds(r),
        steady(r, limit, err),
        0real <= err,
        0 <= fft_len,
        forall|i: int| 0 <= i < env.len() ==> (#[trigger] env[i]).finite(),
        product(env, 0, 0, fft_len) + product(env, delta, delta, fft_len) + 2real * (fft_len as real
            * err) <= limit,
        2real * (fft_len as real * err) < product(env, 0, 0, fft_len),
        2real * (fft_len as real * err) < product(env, delta, delta, fft_len),
    ensures
        exists|dot: real, ea: real, eb: real|
            {
                &&& #[trigger] within(dot, product(env, 0, delta, fft_len), slack_of(fft_len, err))
                &&& #[trigger] within(ea, product(env, 0, 0, fft_len), slack_of(fft_len, err))
                &&& #[trigger] within(eb, product(env, delta, delta, fft_len), slack_of(fft_len, err))
                &&& moderate(dot * dot) && moderate(ea * eb) ==> exists|p: real, q: real| #[trigger]
                    close(p, dot * dot, 1) && #[trigger] close(q, ea * eb, 1) && gives(
                        captured(r, env, delta, fft_len),
                        p / q,
                    )
            },
{
    lemma_sums_of_an_overlap(r, env, delta, fft_len, limit, err);
    lemma_small_numbers();
    let (dot, ea, eb) = overlap(r, env, delta, fft_len);
    let zero = Double { bits: 0 };
    lemma_in_order(ea, zero);
    lemma_in_order(eb, zero);
    let slack = slack_of(fft_len, err);
    assert(within(dot.value(), product(env, 0, delta, fft_len), slack));
    assert(within(ea.value(), product(env, 0, 0, fft_len), slack));
    assert(within(eb.value(), product(env, delta, delta, fft_len), slack));
    if moderate(dot.value() * dot.value()) && moderate(ea.value() * eb.value()) {
        let (p, q) = (r.times_of(dot, dot), r.times_of(ea, eb));
        assert(gives(p, dot.value() * dot.value()) && gives(q, ea.value() * eb.value()));
        lemma_product_above_zero(ea.value(), eb.value());
        crate::rounding::lemma_close_sign(q.value(), ea.value() * eb.value(), 1);
        assert(close(p.value(), dot.value() * dot.value(), 1) && close(
            q.value(),
            ea.value() * eb.value(),
            1,
        ));
        assert(gives(captured(r, env, delta, fft_len), p.value() / q.value()));
    }
}

proof fn lemma_product_above_zero(a: real, b: real)
    by (nonlinear_arith)
    requires
        0real < a,
        0real < b,
    ensures
        0real < a * b,
{
}

/// The hop is as wide as the tolerance allows: where capture falls as the offset grows, a frame half a hop
/// early or less still captures enough, and one that is earlier than that does not.
pub proof fn law_half_a_hop_early_is_near_enough<R: Reals>(
    r: &R,
    env: Seq<Single>,
    fft_len: int,
    tol: Double,
    delta: int,
)
    requires
        0 <= fft_len,
        forall|i: int, j: int|
            0 <= i <= j < fft_len && #[trigger] enough(r, env, fft_len, tol, j) ==> #[trigger] enough(
                r,
                env,
                fft_len,
                tol,
                i,
            ),
        1 <= delta <= fft_len,
        hop_of(r, env, fft_len, tol) > 1,
    ensures
        tol.at_most(captured(r, env, delta, fft_len)) <==> 2 * delta <= hop_of(r, env, fft_len, tol),
{
    let ok = |d: int| enough(r, env, fft_len, tol, d);
    assert forall|i: int, j: int| 0 <= i <= j < fft_len && #[trigger] ok(j) implies #[trigger] ok(i) by {
        assert(enough(r, env, fft_len, tol, j));
        assert(enough(r, env, fft_len, tol, i));
    }
    law_hop_search_is_the_linear_scan(ok, fft_len);
    let steps = linear_scan(ok, fft_len, 0);
    lemma_a_scan_stops_first(ok, fft_len, 0);
    assert(ok(delta - 1) == enough(r, env, fft_len, tol, delta - 1));
    if delta <= steps {
        assert(ok(delta - 1));
    } else if ok(delta - 1) {
        assert(ok(steps));
    }
}

/// A scan stops at the first that will not do, or at the end.
proof fn lemma_a_scan_stops_first(ok: spec_fn(int) -> bool, len: int, from: int)
    requires
        0 <= from <= len,
    ensures
        from <= linear_scan(ok, len, from) <= len,
        forall|i: int| from <= i < linear_scan(ok, len, from) ==> #[trigger] ok(i),
        linear_scan(ok, len, from) < len ==> !ok(linear_scan(ok, len, from)),
    decreases len - from,
{
    if from < len && ok(from) {
        lemma_a_scan_stops_first(ok, len, from + 1);
    }
}

} // verus!
