//! Which transform lengths are fast.

use crate::dict::{smooth, without};
use vstd::arithmetic::power::{lemma_pow0, pow};
use vstd::prelude::*;

verus! {

/// A number is what is left of it without some factor, times a power of that.
proof fn lemma_stripped(n: int, p: int) -> (k: nat)
    requires
        n > 0,
        p > 1,
    ensures
        without(n, p) > 0,
        n == pow(p, k) * without(n, p),
    decreases n,
{
    reveal(pow);
    if n % p == 0 {
        assert(0 < n / p < n && n == p * (n / p)) by (nonlinear_arith)
            requires
                n > 0,
                p > 1,
                n % p == 0,
        ;
        let k = lemma_stripped(n / p, p);
        let (q, w) = (pow(p, k), without(n / p, p));
        assert(pow(p, k + 1) == p * q);
        assert(p * (q * w) == (p * q) * w) by (nonlinear_arith);
        k + 1
    } else {
        lemma_pow0(p);
        assert(1 * n == n);
        0
    }
}

/// A smooth number is made of twos, threes and fives, and nothing else.
pub proof fn law_a_smooth_number_is_made_of_twos_threes_and_fives(n: int) -> (k: (nat, nat, nat))
    requires
        smooth(n),
    ensures
        n == pow(2, k.0) * (pow(3, k.1) * pow(5, k.2)),
{
    let a = lemma_stripped(n, 2);
    let m = without(n, 2);
    let b = lemma_stripped(m, 3);
    let l = without(m, 3);
    let c = lemma_stripped(l, 5);
    assert(pow(5, c) * 1 == pow(5, c));
    (a, b, c)
}

proof fn lemma_three_times(n: int)
    requires
        n > 0,
    ensures
        without(3 * n, 2) == 3 * without(n, 2),
        without(n, 2) > 0,
    decreases n,
{
    if n % 2 == 0 {
        assert((3 * n) % 2 == 0 && (3 * n) / 2 == 3 * (n / 2));
        lemma_three_times(n / 2);
    } else {
        assert((3 * n) % 2 != 0);
    }
}

proof fn lemma_five_times(n: int)
    requires
        n > 0,
    ensures
        without(5 * n, 2) == 5 * without(n, 2),
        without(n, 2) > 0,
    decreases n,
{
    if n % 2 == 0 {
        assert((5 * n) % 2 == 0 && (5 * n) / 2 == 5 * (n / 2));
        lemma_five_times(n / 2);
    } else {
        assert((5 * n) % 2 != 0);
    }
}

proof fn lemma_five_times_of_threes(n: int)
    requires
        n > 0,
    ensures
        without(5 * n, 3) == 5 * without(n, 3),
        without(n, 3) > 0,
    decreases n,
{
    if n % 3 == 0 {
        assert((5 * n) % 3 == 0 && (5 * n) / 3 == 5 * (n / 3));
        lemma_five_times_of_threes(n / 3);
    } else {
        assert((5 * n) % 3 != 0);
    }
}

/// One is smooth, and so are twice, three times and five times a smooth number: every product of twos, threes
/// and fives is.
pub proof fn law_twos_threes_and_fives_keep_a_number_smooth(n: int)
    requires
        smooth(n),
    ensures
        smooth(1),
        smooth(2 * n),
        smooth(3 * n),
        smooth(5 * n),
{
    assert(without(1, 2) == 1 && without(1, 3) == 1 && without(1, 5) == 1);
    assert((2 * n) % 2 == 0 && (2 * n) / 2 == n);
    lemma_three_times(n);
    let m = without(n, 2);
    assert((3 * m) % 3 == 0 && (3 * m) / 3 == m);
    lemma_five_times(n);
    lemma_five_times_of_threes(m);
    let l = without(m, 3);
    assert((5 * l) % 5 == 0 && (5 * l) / 5 == l);
}

} // verus!
