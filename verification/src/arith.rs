//! Small arithmetic facts about row-major indexing and ceiling division,
//! shared by the tile matcher and the reconstructor.

use vstd::prelude::*;
use vstd::arithmetic::div_mod::{lemma_fundamental_div_mod, lemma_fundamental_div_mod_converse};
use vstd::arithmetic::mul::lemma_mul_inequality;

verus! {

/// A row-major index lies inside the buffer.
pub proof fn lemma_row_major_bound(row: int, col: int, w: int, h: int)
    by (nonlinear_arith)
    requires
        0 <= row < h,
        0 <= col < w,
    ensures
        0 <= row * w + col < h * w,
        row * w + col < w * h,
{
}

/// Quotient and remainder recover the row and column of a row-major index.
pub proof fn lemma_div_mod_id(q: int, r: int, d: int)
    requires
        d > 0,
        0 <= r < d,
    ensures
        (q * d + r) / d == q,
        (q * d + r) % d == r,
{
    lemma_fundamental_div_mod_converse(q * d + r, d, q, r);
}

/// Row-major indexing is injective.
pub proof fn lemma_row_major_inj(w: int, r1: int, c1: int, r2: int, c2: int)
    requires
        w > 0,
        0 <= c1 < w,
        0 <= c2 < w,
        r1 * w + c1 == r2 * w + c2,
    ensures
        r1 == r2,
        c1 == c2,
{
    lemma_fundamental_div_mod_converse(r1 * w + c1, w, r1, c1);
    lemma_fundamental_div_mod_converse(r2 * w + c2, w, r2, c2);
}

/// A position below `d * n` falls in one of the first `n` rows of width `d`.
pub proof fn lemma_div_bound(i: int, d: int, n: int)
    requires
        d > 0,
        0 <= i < d * n,
    ensures
        0 <= i / d < n,
        0 <= i % d < d,
        i == (i / d) * d + i % d,
{
    broadcast use vstd::arithmetic::mul::lemma_mul_is_commutative;

    lemma_fundamental_div_mod(i, d);
    vstd::arithmetic::div_mod::lemma_mod_bound(i, d);
    if i / d < 0 {
        lemma_mul_inequality(i / d, -1, d);
    }
    if i / d >= n {
        lemma_mul_inequality(n, i / d, d);
    }
}

/// A nonnegative value lies in the row given by its quotient.
pub proof fn lemma_cell_range(p: int, d: int)
    requires
        d > 0,
        p >= 0,
    ensures
        0 <= p / d,
        (p / d) * d <= p < (p / d + 1) * d,
        p % d == p - (p / d) * d,
        0 <= p % d < d,
{
    broadcast use vstd::arithmetic::mul::group_mul_properties;

    lemma_fundamental_div_mod(p, d);
    vstd::arithmetic::div_mod::lemma_mod_bound(p, d);
    if p / d < 0 {
        lemma_mul_inequality(p / d, -1, d);
    }
}

/// The number of cells of size `cell` needed to cover `extent`.
pub open spec fn n_tiles(extent: nat, cell: nat) -> nat
    recommends
        cell > 0,
{
    (((extent + cell - 1) as int) / (cell as int)) as nat
}

/// The cell count is the least count whose cells cover the extent.
pub proof fn lemma_n_tiles_bounds(extent: nat, cell: nat)
    requires
        cell >= 1,
    ensures
        n_tiles(extent, cell) * cell >= extent,
        (n_tiles(extent, cell) - 1) * (cell as int) < extent,
        extent == 0 ==> n_tiles(extent, cell) == 0,
        extent > 0 ==> n_tiles(extent, cell) > 0,
{
    let d = cell as int;
    let x = extent as int;
    let q = (x + d - 1) / d;
    lemma_fundamental_div_mod(x + d - 1, d);
    vstd::arithmetic::div_mod::lemma_mod_bound(x + d - 1, d);
    if q < 0 {
        lemma_mul_inequality(q, -1, d);
    }
    assert(x + d - 1 == q * d + (x + d - 1) % d);
    assert(q * d >= x + d - 1 - (d - 1));
    assert((q - 1) * d == q * d - d) by (nonlinear_arith);
    assert(q * d <= x + d - 1);
}

/// Stepping by the cell size reaches exactly the cell count when the walk
/// passes the extent.
pub proof fn lemma_step_count(extent: nat, cell: nat, q: int)
    requires
        cell >= 1,
        q >= 0,
        q * cell >= extent,
        (q - 1) * (cell as int) < extent,
    ensures
        q == n_tiles(extent, cell),
{
    let d = cell as int;
    let x = extent as int;
    let r = x + d - 1 - q * d;
    assert((q - 1) * d == q * d - d) by (nonlinear_arith);
    lemma_fundamental_div_mod_converse(x + d - 1, d, q, r);
}

} // verus!
