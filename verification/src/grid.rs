//! Spatial adjacency on the square sample grid the bulk population
//! interface fills.  Samples are stored row-major in a `size * size`
//! field; two indices are neighbors when their cells are at Chebyshev
//! distance at most one (a cell is its own neighbor) and the candidate
//! row is on the grid.

use vstd::prelude::*;

verus! {

/// Chebyshev adjacency of two row-major indices on a grid of width
/// `size`: column and row each differ by at most one, and the second
/// index's row is on the grid.
pub open spec fn neighbor_spec(i: int, ii: int, size: int) -> bool
    recommends
        size > 0,
{
    let x_i = i % size;
    let y_i = i / size;
    let x_ii = ii % size;
    let y_ii = ii / size;
    &&& -1 <= x_i - x_ii <= 1
    &&& -1 <= y_i - y_ii <= 1
    &&& y_ii < size
}

/// Whether sample `ii` borders sample `i` (or is `i` itself) on the
/// `size`-wide row-major grid.
pub fn is_neighbor(i: usize, ii: usize, size: usize) -> (r: bool)
    requires
        size > 0,
    ensures
        r == neighbor_spec(i as int, ii as int, size as int),
{
    let x_i = i % size;
    let y_i = i / size;

    let x_ii = ii % size;
    let y_ii = ii / size;

    let x_diff = if x_i >= x_ii {
        x_i - x_ii
    } else {
        x_ii - x_i
    };
    let y_diff = if y_i >= y_ii {
        y_i - y_ii
    } else {
        y_ii - y_i
    };

    x_diff <= 1 && y_diff <= 1 && y_ii < size
}

} // verus!
