//! How a marginal is cut into rows.

use crate::inspect::{row_count, row_end, stride};
use vstd::arithmetic::div_mod::{
    lemma_div_pos_is_pos, lemma_fundamental_div_mod, lemma_mod_bound,
};
use vstd::prelude::*;

verus! {

/// Every entry of a marginal is in one of its rows, and a row ends where the next begins or where the marginal
/// does.
pub proof fn law_every_entry_is_in_a_row(len: int, e: int) -> (i: int)
    requires
        0 <= e < len,
    ensures
        0 <= i < row_count(len),
        i * stride(len) <= e < row_end(len, i),
        row_end(len, i) == (i + 1) * stride(len) || row_end(len, i) == len,
        row_end(len, i) <= len,
{
    let s = stride(len);
    let i = e / s;
    lemma_fundamental_div_mod(e, s);
    lemma_mod_bound(e, s);
    lemma_div_pos_is_pos(e, s);
    assert(s * i == i * s && (i + 1) * s == i * s + s) by (nonlinear_arith);
    let n = (len + s - 1) / s;
    lemma_fundamental_div_mod(len + s - 1, s);
    lemma_mod_bound(len + s - 1, s);
    assert(s * n == n * s) by (nonlinear_arith);
    if i >= n {
        assert(n * s <= i * s) by (nonlinear_arith)
            requires
                n <= i,
                s >= 1,
        ;
    }
    i
}

} // verus!
