//! Flat indices of three-dimensional lattices, last axis fastest.

use vstd::arithmetic::div_mod::*;
use vstd::arithmetic::mul::*;
use vstd::prelude::*;

verus! {

/// The flat index of `(i, j, k)` where the last two axes have `nj` and `nk`
/// entries.
pub open spec fn flat(i: int, j: int, k: int, nj: int, nk: int) -> int {
    (i * nj + j) * nk + k
}

/// The first index of the entry at `c`.
pub open spec fn first_of(c: int, nj: int, nk: int) -> int {
    c / nk / nj
}

/// The second index of the entry at `c`.
pub open spec fn second_of(c: int, nj: int, nk: int) -> int {
    c / nk % nj
}

/// The third index of the entry at `c`.
pub open spec fn third_of(c: int, nk: int) -> int {
    c % nk
}

/// A flat index splits into the indices it was made of.
pub proof fn flat_splits(i: int, j: int, k: int, nj: int, nk: int)
    requires
        0 <= j < nj,
        0 <= k < nk,
    ensures
        first_of(flat(i, j, k, nj, nk), nj, nk) == i,
        second_of(flat(i, j, k, nj, nk), nj, nk) == j,
        third_of(flat(i, j, k, nj, nk), nk) == k,
{
    let c: int = flat(i, j, k, nj, nk);
    lemma_fundamental_div_mod_converse(c, nk, i * nj + j, k);
    lemma_fundamental_div_mod_converse(i * nj + j, nj, i, j);
}

/// Every position of the lattice is the flat index of its three indices.
pub proof fn flat_joins(c: int, ni: int, nj: int, nk: int)
    requires
        0 <= c < ni * nj * nk,
        0 < nj,
        0 < nk,
    ensures
        0 <= first_of(c, nj, nk) < ni,
        0 <= second_of(c, nj, nk) < nj,
        0 <= third_of(c, nk) < nk,
        flat(first_of(c, nj, nk), second_of(c, nj, nk), third_of(c, nk), nj, nk) == c,
{
    let row: int = c / nk;
    lemma_fundamental_div_mod(c, nk);
    lemma_fundamental_div_mod(row, nj);
    lemma_mod_bound(c, nk);
    lemma_mod_bound(row, nj);
    lemma_mul_is_commutative(nk, row);
    lemma_mul_is_commutative(nj, row / nj);
    lemma_div_pos_is_pos(c, nk);
    lemma_div_pos_is_pos(row, nj);
    assert(row < ni * nj) by {
        lemma_mul_is_commutative(ni * nj, nk);
        lemma_multiply_divide_lt(c, nk, ni * nj);
    }
    assert(row / nj < ni) by {
        lemma_mul_is_commutative(ni, nj);
        lemma_multiply_divide_lt(row, nj, ni);
    }
}

/// A flat index lies within the lattice, and so does every partial product it is
/// computed from.
pub proof fn flat_is_inside(i: int, j: int, k: int, ni: int, nj: int, nk: int)
    requires
        0 <= i < ni,
        0 <= j < nj,
        0 <= k < nk,
    ensures
        0 <= flat(i, j, k, nj, nk) < ni * nj * nk,
        0 <= i * nj,
        0 <= i * nj + j < ni * nj,
        0 <= (i * nj + j) * nk,
        ni * nj <= ni * nj * nk,
{
    assert(0 <= i * nj) by (nonlinear_arith)
        requires
            0 <= i,
            0 <= nj,
    ;
    assert(i * nj + j < ni * nj) by (nonlinear_arith)
        requires
            i + 1 <= ni,
            j < nj,
            0 < nj,
    ;
    let row: int = i * nj + j;
    assert(0 <= row * nk) by (nonlinear_arith)
        requires
            0 <= row,
            0 <= nk,
    ;
    assert(row * nk + k < (ni * nj) * nk) by (nonlinear_arith)
        requires
            row + 1 <= ni * nj,
            k < nk,
            0 < nk,
    ;
    assert(ni * nj <= (ni * nj) * nk) by (nonlinear_arith)
        requires
            0 <= ni * nj,
            1 <= nk,
    ;
}

/// Two entries of the lattice share a flat index only where they are one entry.
pub proof fn flat_is_injective(
    i: int,
    j: int,
    k: int,
    a: int,
    b: int,
    c: int,
    nj: int,
    nk: int,
)
    requires
        0 <= j < nj,
        0 <= k < nk,
        0 <= b < nj,
        0 <= c < nk,
        flat(i, j, k, nj, nk) == flat(a, b, c, nj, nk),
    ensures
        i == a,
        j == b,
        k == c,
{
    flat_splits(i, j, k, nj, nk);
    flat_splits(a, b, c, nj, nk);
}

/// The next entry along the last axis has the next flat index, and a row starts
/// where the row before it ends.
pub proof fn flat_steps(i: int, j: int, k: int, nj: int, nk: int)
    ensures
        flat(i, j, k + 1, nj, nk) == flat(i, j, k, nj, nk) + 1,
        flat(i, j, nk, nj, nk) == flat(i, j + 1, 0, nj, nk),
        flat(i, nj, 0, nj, nk) == flat(i + 1, 0, 0, nj, nk),
        flat(0, 0, 0, nj, nk) == 0,
{
    lemma_mul_is_distributive_add_other_way(nk, i * nj + j, 1);
    lemma_mul_is_distributive_add_other_way(nj, i, 1);
    lemma_mul_basics(nj);
    lemma_mul_basics(nk);
}

} // verus!
