//! Facts about division and multiplication that the block geometry rests on.
use vstd::arithmetic::div_mod::{
    lemma_fundamental_div_mod, lemma_fundamental_div_mod_converse, lemma_mod_bound,
    lemma_mod_multiples_basic,
};
use vstd::arithmetic::mul::{
    lemma_mul_inequality, lemma_mul_is_associative, lemma_mul_is_commutative,
    lemma_mul_is_distributive_add, lemma_mul_nonnegative, lemma_mul_upper_bound,
};
use vstd::prelude::*;

verus! {

/// `a` lies between the multiple of `d` below it and the next one.
pub proof fn lemma_div_bounds(a: int, d: int)
    requires
        0 <= a,
        0 < d,
    ensures
        0 <= a / d,
        (a / d) * d <= a < (a / d) * d + d,
        a - a % d == (a / d) * d,
        0 <= a % d < d,
{
    lemma_fundamental_div_mod(a, d);
    lemma_mod_bound(a, d);
    lemma_mul_is_commutative(d, a / d);
    if a / d < 0 {
        lemma_mul_inequality(a / d, -1, d);
        lemma_mul_is_commutative(-1, d);
    }
}

/// The quotient of a number between two neighbouring multiples of `d`.
pub proof fn lemma_div_of_range(a: int, d: int, q: int)
    requires
        0 < d,
        q * d <= a < q * d + d,
    ensures
        a / d == q,
        a % d == a - q * d,
{
    lemma_fundamental_div_mod_converse(a, d, q, a - q * d);
}

/// Rounding `a` down to a multiple of `d` keeps the quotient.
pub proof fn lemma_round_down(a: int, d: int)
    requires
        0 <= a,
        0 < d,
    ensures
        (a - a % d) / d == a / d,
        (a - a % d) % d == 0,
        0 <= a - a % d <= a,
{
    lemma_div_bounds(a, d);
    lemma_div_of_range(a - a % d, d, a / d);
}

/// A product of bounded factors is bounded by the product of the bounds.
pub proof fn lemma_mul_bounds(a: int, b: int, c: int, d: int)
    requires
        0 <= a <= b,
        0 <= c <= d,
    ensures
        0 <= a * c <= b * d,
{
    lemma_mul_nonnegative(a, c);
    lemma_mul_upper_bound(a, b, c, d);
}

/// `(q + 1) * d` written out.
pub proof fn lemma_mul_succ(q: int, d: int)
    ensures
        (q + 1) * d == q * d + d,
        d * (q + 1) == d * q + d,
{
    lemma_mul_is_distributive_add(d, q, 1);
    lemma_mul_is_commutative(d, q + 1);
    lemma_mul_is_commutative(d, q);
}

/// Row and column of the `k`-th cell of a grid with `cols` columns.
pub proof fn lemma_grid_index(k: int, cols: int, row: int, col: int)
    requires
        0 <= col < cols,
        k == row * cols + col,
    ensures
        k / cols == row,
        k % cols == col,
{
    lemma_fundamental_div_mod_converse(k, cols, row, col);
}

/// A cell of a grid with `rows` rows and `cols` columns has an index below
/// `rows * cols`.
pub proof fn lemma_grid_bound(row: int, col: int, rows: int, cols: int)
    requires
        0 <= row < rows,
        0 <= col < cols,
    ensures
        0 <= row * cols + col < rows * cols,
        (row + 1) * cols <= rows * cols,
{
    lemma_mul_nonnegative(row, cols);
    lemma_mul_inequality(row + 1, rows, cols);
    lemma_mul_succ(row, cols);
}

/// Row and column of a cell index below `rows * cols`.
pub proof fn lemma_grid_cell(k: int, rows: int, cols: int)
    requires
        0 <= k < rows * cols,
        0 <= rows,
        0 <= cols,
    ensures
        0 < cols,
        0 <= k / cols < rows,
        0 <= k % cols < cols,
        k == (k / cols) * cols + k % cols,
{
    if cols == 0 {
        assert(rows * cols == 0) by (nonlinear_arith)
            requires
                cols == 0,
        ;
    }
    lemma_div_bounds(k, cols);
    if k / cols >= rows {
        lemma_mul_inequality(rows, k / cols, cols);
    }
}

/// A multiple of a multiple of `d` is a multiple of `d`.
pub proof fn lemma_multiple_of(m: int, a: int, d: int)
    requires
        0 < d,
        a % d == 0,
    ensures
        (m * a) % d == 0,
{
    lemma_fundamental_div_mod(a, d);
    lemma_mul_is_associative(m, a / d, d);
    lemma_mul_is_commutative(d, a / d);
    lemma_mod_multiples_basic(m * (a / d), d);
}

} // verus!
