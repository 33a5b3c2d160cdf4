//! Trusted boundary to the `grid` crate.
//!
//! A board's cells live in a `grid::Grid<usize>`. Verified code reaches the
//! grid only through the wrappers here; their contracts speak of the grid
//! through three names: its cells in row-major reading order (`grid_seq`),
//! its column count (`grid_cols`), and a well-formedness mark
//! (`grid_row_major`). Every grid this library builds is made by
//! `grid::Grid::from_vec`, which stores its cells row-major.

use vstd::prelude::*;

verus! {

#[verifier::external_type_specification]
#[verifier::external_body]
#[verifier::reject_recursive_types(T)]
pub struct ExGrid<T>(grid::Grid<T>);

/// The cells of the grid in row-major reading order.
pub uninterp spec fn grid_seq(g: grid::Grid<usize>) -> Seq<usize>;

/// The number of columns the grid was built with.
pub uninterp spec fn grid_cols(g: grid::Grid<usize>) -> nat;

/// The grid's representation is the one `grid::Grid::from_vec` builds:
/// cells stored row-major, at least one cell, at least one column, and the
/// stored row count times the stored column count equal to the cell count.
pub uninterp spec fn grid_row_major(g: grid::Grid<usize>) -> bool;

/// Relies on `grid::Grid::from_vec`: builds a row-major grid that holds
/// exactly the vector's elements, with the given column count. The call
/// panics only when the vector's length is no multiple of `cols`, which the
/// precondition rules out.
#[verifier::external_body]
pub(crate) fn grid_from_vec(v: Vec<usize>, cols: usize) -> (g: grid::Grid<usize>)
    requires
        1 <= cols,
        v@.len() % (cols as nat) == 0,
        v@.len() > 0,
    ensures
        grid_seq(g) == v@,
        grid_cols(g) == cols as nat,
        grid_row_major(g),
{
    grid::Grid::from_vec(v, cols)
}

/// Relies on the `Index` impl of `grid::Grid`: returns the cell at
/// (row, col). The impl panics only out of bounds, which the precondition
/// rules out.
#[verifier::external_body]
pub(crate) fn grid_get(g: &grid::Grid<usize>, row: usize, col: usize) -> (r: usize)
    requires
        grid_row_major(*g),
        (col as nat) < grid_cols(*g),
        (row as nat) * grid_cols(*g) + (col as nat) < grid_seq(*g).len(),
    ensures
        r == grid_seq(*g)[row as int * grid_cols(*g) as int + col as int],
{
    g[(row, col)]
}

/// Relies on `grid::Grid::swap`: exchanges the cells at positions `a` and
/// `b` and touches nothing else. The call panics only out of bounds, which
/// the precondition rules out.
#[verifier::external_body]
pub(crate) fn grid_swap(g: &mut grid::Grid<usize>, a: (usize, usize), b: (usize, usize))
    requires
        grid_row_major(*old(g)),
        (a.1 as nat) < grid_cols(*old(g)),
        (a.0 as nat) * grid_cols(*old(g)) + (a.1 as nat) < grid_seq(*old(g)).len(),
        (b.1 as nat) < grid_cols(*old(g)),
        (b.0 as nat) * grid_cols(*old(g)) + (b.1 as nat) < grid_seq(*old(g)).len(),
    ensures
        grid_row_major(*final(g)),
        grid_cols(*final(g)) == grid_cols(*old(g)),
        grid_seq(*final(g)) == ({
            let s = grid_seq(*old(g));
            let c = grid_cols(*old(g)) as int;
            let ia = a.0 as int * c + a.1 as int;
            let ib = b.0 as int * c + b.1 as int;
            s.update(ia, s[ib]).update(ib, s[ia])
        }),
{
    g.swap(a, b)
}

/// Relies on the `PartialEq` impl of `grid::Grid`: two grids are equal
/// exactly when their dimensions and their cells agree; for two row-major
/// grids that is column count and row-major cells.
#[verifier::external_body]
pub(crate) fn grid_eq(a: &grid::Grid<usize>, b: &grid::Grid<usize>) -> (r: bool)
    requires
        grid_row_major(*a),
        grid_row_major(*b),
    ensures
        r == (grid_cols(*a) == grid_cols(*b) && grid_seq(*a) == grid_seq(*b)),
{
    a == b
}

/// Relies on the `Clone` impl of `grid::Grid`: copies the dimensions, the
/// layout order and the cells.
#[verifier::external_body]
pub(crate) fn grid_clone(g: &grid::Grid<usize>) -> (r: grid::Grid<usize>)
    ensures
        grid_seq(r) == grid_seq(*g),
        grid_cols(r) == grid_cols(*g),
        grid_row_major(*g) ==> grid_row_major(r),
{
    g.clone()
}

} // verus!
