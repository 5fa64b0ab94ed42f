//! The two-dimensional grids of the `grid` crate, as the maze uses them:
//! one kind holds walls, the other the handles of the cells.
//!
//! Nothing here is proved. Each function makes one call into `grid`, and its
//! contract says what that call does to the rows of the grid.

use vstd::prelude::*;
use grid::Grid;
use crate::union_find::NodeIdx;

verus! {

/// `grid::Grid`, the grid of the `grid` crate. What one holds is known only
/// through the functions below.
#[verifier::external_type_specification]
#[verifier::external_body]
#[verifier::reject_recursive_types(T)]
pub struct ExGrid<T>(Grid<T>);

/// The walls that a grid holds, row by row from the top.
pub uninterp spec fn wall_rows(grid: Grid<bool>) -> Seq<Seq<bool>>;

/// The number of columns that a grid of walls reports.
pub uninterp spec fn wall_columns(grid: Grid<bool>) -> nat;

/// The handles that a grid holds, row by row from the top.
pub uninterp spec fn handle_rows(grid: Grid<NodeIdx>) -> Seq<Seq<NodeIdx>>;

/// `rows` rows of `columns` copies of `value`; no rows at all where either
/// number is zero.
pub open spec fn filled<T>(rows: nat, columns: nat, value: T) -> Seq<Seq<T>> {
    if rows == 0 || columns == 0 {
        Seq::empty()
    } else {
        Seq::new(rows, |i: int| Seq::new(columns, |j: int| value))
    }
}

/// The number of columns of a grid made with the given sizes: none where
/// either is zero.
pub open spec fn filled_columns(rows: nat, columns: nat) -> nat {
    if rows == 0 || columns == 0 {
        0
    } else {
        columns
    }
}

/// `Grid::init` for walls. The grid has `rows` rows of `columns` copies of
/// `wall`; with a zero among the sizes it is empty, without rows or columns.
/// `Grid::init` panics where `rows * columns` overflows.
#[verifier::external_body]
pub(crate) fn wall_grid_init(rows: usize, columns: usize, wall: bool) -> (grid: Grid<bool>)
    requires
        rows * columns <= usize::MAX,
    ensures
        wall_rows(grid) == filled(rows as nat, columns as nat, wall),
        wall_columns(grid) == filled_columns(rows as nat, columns as nat),
{
    Grid::init(rows, columns, wall)
}

/// `Grid::cols` for walls: the number of columns.
#[verifier::external_body]
pub(crate) fn wall_grid_cols(grid: &Grid<bool>) -> (columns: usize)
    ensures
        columns == wall_columns(*grid),
{
    grid.cols()
}

/// Reading `grid[row][column]` of a grid of walls. The index panics outside
/// the grid.
#[verifier::external_body]
pub(crate) fn wall_grid_get(grid: &Grid<bool>, row: usize, column: usize) -> (wall: bool)
    requires
        row < wall_rows(*grid).len(),
        column < wall_rows(*grid)[row as int].len(),
    ensures
        wall == wall_rows(*grid)[row as int][column as int],
{
    grid[row][column]
}

/// Writing `grid[row][column]` of a grid of walls. That one place changes and
/// nothing else. The index panics outside the grid.
#[verifier::external_body]
pub(crate) fn wall_grid_set(grid: &mut Grid<bool>, row: usize, column: usize, wall: bool)
    requires
        row < wall_rows(*old(grid)).len(),
        column < wall_rows(*old(grid))[row as int].len(),
    ensures
        wall_rows(*final(grid)) == wall_rows(*old(grid)).update(
            row as int,
            wall_rows(*old(grid))[row as int].update(column as int, wall),
        ),
        wall_columns(*final(grid)) == wall_columns(*old(grid)),
{
    grid[row][column] = wall;
}

/// `Grid::new` for handles. The grid has `rows` rows of `columns` default
/// handles; with a zero among the sizes it is empty. `Grid::new` panics where
/// `rows * columns` overflows.
#[verifier::external_body]
pub(crate) fn handle_grid_new(rows: usize, columns: usize) -> (grid: Grid<NodeIdx>)
    requires
        rows * columns <= usize::MAX,
    ensures
        handle_rows(grid) == filled(rows as nat, columns as nat, NodeIdx::at(0)),
{
    Grid::new(rows, columns)
}

/// Reading `grid[row][column]` of a grid of handles. The index panics
/// outside the grid.
#[verifier::external_body]
pub(crate) fn handle_grid_get(grid: &Grid<NodeIdx>, row: usize, column: usize) -> (handle: NodeIdx)
    requires
        row < handle_rows(*grid).len(),
        column < handle_rows(*grid)[row as int].len(),
    ensures
        handle == handle_rows(*grid)[row as int][column as int],
{
    grid[row][column]
}

/// Writing `grid[row][column]` of a grid of handles. That one place changes
/// and nothing else. The index panics outside the grid.
#[verifier::external_body]
pub(crate) fn handle_grid_set(
    grid: &mut Grid<NodeIdx>,
    row: usize,
    column: usize,
    handle: NodeIdx,
)
    requires
        row < handle_rows(*old(grid)).len(),
        column < handle_rows(*old(grid))[row as int].len(),
    ensures
        handle_rows(*final(grid)) == handle_rows(*old(grid)).update(
            row as int,
            handle_rows(*old(grid))[row as int].update(column as int, handle),
        ),
{
    grid[row][column] = handle;
}

} // verus!
