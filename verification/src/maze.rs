//! Mazes on a grid of cells: which walls stand, and how a maze is made.

use vstd::prelude::*;
use grid::Grid;
use crate::graph::reachable;
use crate::grids::{
    filled_columns, handle_grid_get, handle_grid_new, handle_grid_set, handle_rows,
    wall_columns, wall_grid_cols, wall_grid_get, wall_grid_init, wall_grid_set, wall_rows,
};
use crate::layout::{
    border_row, has_shape, horizontal_row, horizontal_wall, horizontal_walls, repeated,
    vertical_row, vertical_walls, MazeView,
};
use crate::partition::{singletons, tracks, with_singleton};
use crate::shuffle::shuffle_walls;
use crate::text::push_char;
use crate::union_find::{UnionFind, UnionFindSetCmp, A};
use crate::walls::{
    all_fit, candidate_walls, candidates, carved, cell_number, classes, covers,
    lemma_candidates, lemma_carved_classes, lemma_carved_is_spanning_tree,
    lemma_carved_ringless, lemma_rearranged, lemma_wall_ends, passages, ringless, WallIndex,
    WallType,
};

verus! {

/// The number of lines that show a row of cells.
const VERTICAL_LENGTH: usize = 2;

/// The width of a cell in characters, the wall to its right left out.
const HORIZONTAL_LENGTH: usize = 7;

/// A maze on a grid of cells, with a wall or a passage between neighbours.
pub struct Maze {
    rows: usize,
    columns: usize,
    horizontal_walls: Grid<bool>,
    vertical_walls: Grid<bool>,
}

impl View for Maze {
    type V = MazeView;

    closed spec fn view(&self) -> MazeView {
        MazeView {
            rows: self.rows as nat,
            columns: self.columns as nat,
            horizontal: wall_rows(self.horizontal_walls),
            vertical: wall_rows(self.vertical_walls),
        }
    }
}

impl Maze {
    /// The two grids have the sizes that the numbers of rows and columns ask
    /// for.
    #[verifier::type_invariant]
    spec fn consistent(&self) -> bool {
        &&& self@.well_shaped()
        &&& wall_columns(self.horizontal_walls) == filled_columns(
            (self.rows - 1) as nat,
            self.columns as nat,
        )
        &&& wall_columns(self.vertical_walls) == filled_columns(
            self.rows as nat,
            (self.columns - 1) as nat,
        )
    }

    /// The maze in which every wall stands.
    pub fn full(rows: usize, columns: usize) -> (maze: Self)
        requires
            rows >= 1,
            columns >= 1,
            rows * columns <= usize::MAX,
        ensures
            maze@ == MazeView::uniform(rows as nat, columns as nat, true),
    {
        proof {
            lemma_sizes(rows, columns);
        }
        Self {
            rows,
            columns,
            horizontal_walls: wall_grid_init(rows - 1, columns, true),
            vertical_walls: wall_grid_init(rows, columns - 1, true),
        }
    }

    /// The maze in which no wall stands.
    pub fn empty(rows: usize, columns: usize) -> (maze: Self)
        requires
            rows >= 1,
            columns >= 1,
            rows * columns <= usize::MAX,
        ensures
            maze@ == MazeView::uniform(rows as nat, columns as nat, false),
    {
        proof {
            lemma_sizes(rows, columns);
        }
        Self {
            rows,
            columns,
            horizontal_walls: wall_grid_init(rows - 1, columns, false),
            vertical_walls: wall_grid_init(rows, columns - 1, false),
        }
    }

    /// Makes a maze by Kruskal's algorithm with the walls in a random
    /// order: whatever the order, there is one way between any two cells.
    pub fn random(rows: usize, columns: usize) -> (maze: Self)
        requires
            rows >= 1,
            columns >= 1,
            rows * columns <= usize::MAX,
        ensures
            maze@.rows == rows,
            maze@.columns == columns,
            maze@.well_shaped(),
            maze@.is_perfect(),
            exists|order: Seq<WallIndex>|
                #![trigger carved(columns as int, order)]
                order.to_multiset() == candidates(rows as int, columns as int).to_multiset()
                    && maze@ == MazeView::walled(
                    rows as nat,
                    columns as nat,
                    carved(columns as int, order),
                ),
    {
        let mut rng = rand::thread_rng();

        let mut wall_indices = candidate_walls(rows, columns);
        shuffle_walls(&mut wall_indices, &mut rng);
        proof {
            lemma_candidates(rows as int, columns as int);
            lemma_rearranged(
                rows as int,
                columns as int,
                wall_indices@,
                candidates(rows as int, columns as int),
            );
        }
        let maze = Self::carve(rows, columns, &wall_indices);
        proof {
            lemma_carved_classes(rows as int, columns as int, wall_indices@);
            MazeView::lemma_walled(
                rows as nat,
                columns as nat,
                carved(columns as int, wall_indices@),
            );
        }
        maze
    }

    /// Makes a maze by Kruskal's algorithm with the walls in the given order:
    /// each wall in its turn is opened unless its two cells were joined
    /// already. The same order gives the same maze.
    pub fn carve(rows: usize, columns: usize, order: &Vec<WallIndex>) -> (maze: Self)
        requires
            rows >= 1,
            columns >= 1,
            rows * columns <= usize::MAX,
            all_fit(rows as int, columns as int, order@),
        ensures
            maze@ == MazeView::walled(rows as nat, columns as nat, carved(columns as int, order@)),
            maze@.well_shaped(),
            maze@.open_walls() == carved(columns as int, order@),
            ringless(columns as int, maze@.open_walls()),
            covers(rows as int, columns as int, order@) ==> maze@.is_perfect(),
    {
        proof {
            lemma_sizes(rows, columns);
        }
        let ghost cell_count = (rows * columns) as nat;
        let mut cells_connected_areas = A::new();
        let mut cells = handle_grid_new(rows, columns);
        assert(singletons(0) =~= Seq::<int>::empty());
        assert(0 * columns == 0) by (nonlinear_arith);
        for i in 0..rows
            invariant
                columns >= 1,
                rows * columns <= usize::MAX,
                cells_connected_areas.valid(),
                cells_connected_areas@ == singletons((i * columns) as nat),
                has_shape(handle_rows(cells), rows as nat, columns as nat),
                forall|r: int, c: int|
                    0 <= r < i && 0 <= c < columns ==> (#[trigger] handle_rows(cells)[r][c])@
                        == cell_number(columns as int, r, c),
        {
            for j in 0..columns
                invariant
                    i < rows,
                    columns >= 1,
                    cells_connected_areas.valid(),
                    cells_connected_areas@ == singletons((i * columns + j) as nat),
                    has_shape(handle_rows(cells), rows as nat, columns as nat),
                    forall|r: int, c: int|
                        (0 <= r < i && 0 <= c < columns) || (r == i && 0 <= c < j) ==> (
                        #[trigger] handle_rows(cells)[r][c])@ == cell_number(columns as int, r, c),
            {
                let ghost before = handle_rows(cells);
                let handle = cells_connected_areas.add_element();
                handle_grid_set(&mut cells, i, j, handle);
                proof {
                    let issued = (i * columns + j) as nat;
                    assert(i * columns + j >= 0) by (nonlinear_arith)
                        requires
                            i >= 0,
                            columns >= 0,
                            j >= 0,
                    ;
                    assert(with_singleton(singletons(issued)) =~= singletons(issued + 1));
                    assert forall|r: int, c: int|
                        (0 <= r < i && 0 <= c < columns) || (r == i && 0 <= c < j + 1) implies (
                    #[trigger] handle_rows(cells)[r][c])@ == cell_number(columns as int, r, c) by {
                        if r != i || c != j {
                            assert(handle_rows(cells)[r][c] == before[r][c]);
                        }
                    }
                }
            }
            assert((i + 1) * columns == i * columns + columns) by (nonlinear_arith);
        }

        let mut vertical_walls = wall_grid_init(rows, columns - 1, true);
        let mut horizontal_walls = wall_grid_init(rows - 1, columns, true);
        proof {
            MazeView::lemma_walled_nothing(rows as nat, columns as nat);
            assert(order@.take(0) =~= Seq::<WallIndex>::empty());
        }

        for k in 0..order.len()
            invariant
                rows >= 1,
                columns >= 1,
                rows * columns <= usize::MAX,
                cell_count == rows * columns,
                all_fit(rows as int, columns as int, order@),
                has_shape(handle_rows(cells), rows as nat, columns as nat),
                forall|r: int, c: int|
                    0 <= r < rows && 0 <= c < columns ==> (#[trigger] handle_rows(cells)[r][c])@
                        == cell_number(columns as int, r, c),
                cells_connected_areas.valid(),
                cells_connected_areas@ == classes(
                    cell_count,
                    columns as int,
                    order@.take(k as int),
                ),
                wall_rows(horizontal_walls) == MazeView::walled(
                    rows as nat,
                    columns as nat,
                    carved(columns as int, order@.take(k as int)),
                ).horizontal,
                wall_rows(vertical_walls) == MazeView::walled(
                    rows as nat,
                    columns as nat,
                    carved(columns as int, order@.take(k as int)),
                ).vertical,
                wall_columns(horizontal_walls) == filled_columns(
                    (rows - 1) as nat,
                    columns as nat,
                ),
                wall_columns(vertical_walls) == filled_columns(rows as nat, (columns - 1) as nat),
        {
            let wall = order[k];
            let ghost earlier = order@.take(k as int);
            let ghost open = carved(columns as int, earlier);
            let ghost a = wall.near(columns as int);
            let ghost b = wall.far(columns as int);
            proof {
                assert(order@.take(k + 1).drop_last() =~= earlier);
                assert(order@.take(k + 1).last() == wall);
                assert forall|at: int| 0 <= at < earlier.len() implies {
                    (#[trigger] earlier[at]).fits(rows as int, columns as int)
                } by {
                    assert(earlier[at] == order@[at]);
                }
                lemma_carved_classes(rows as int, columns as int, earlier);
                assert(order@[k as int].fits(rows as int, columns as int));
                lemma_wall_ends(rows as int, columns as int, wall);
            }
            let (neighbor_i, neighbor_j) = match wall.wall_type {
                WallType::Vertical => (wall.i, wall.j + 1),
                WallType::Horizontal => (wall.i + 1, wall.j),
            };

            let node = handle_grid_get(&cells, wall.i, wall.j);
            let neighbor = handle_grid_get(&cells, neighbor_i, neighbor_j);
            assert(node@ == a && neighbor@ == b);

            let ghost asked = cells_connected_areas;
            let joined = cells_connected_areas.is_in_same_set(node, neighbor);
            proof {
                asked.lemma_representative(node);
                asked.lemma_representative(neighbor);
                asked.representative(node).lemma_place();
                asked.representative(neighbor).lemma_place();
                assert(joined == (asked@[a] == asked@[b]));
                assert(tracks(asked@, passages(columns as int, open)));
                assert(joined == reachable(
                    passages(columns as int, open),
                    a,
                    b,
                ));
            }
            if !joined {
                cells_connected_areas.union(node, neighbor);
                match wall.wall_type {
                    WallType::Vertical => wall_grid_set(
                        &mut vertical_walls,
                        wall.i,
                        wall.j,
                        false,
                    ),
                    WallType::Horizontal => wall_grid_set(
                        &mut horizontal_walls,
                        wall.i,
                        wall.j,
                        false,
                    ),
                }
                proof {
                    MazeView::lemma_walled_insert(rows as nat, columns as nat, open, wall);
                }
            }
        }
        proof {
            assert(order@.take(order.len() as int) =~= order@);
            lemma_carved_classes(rows as int, columns as int, order@);
            MazeView::lemma_walled(rows as nat, columns as nat, carved(columns as int, order@));
            lemma_carved_ringless(columns as int, order@);
            if covers(rows as int, columns as int, order@) {
                lemma_carved_is_spanning_tree(rows as int, columns as int, order@);
            }
        }

        Self { rows, columns, vertical_walls, horizontal_walls }
    }

    /// The text that shows the maze, line by line.
    pub fn render(&self) -> (text: String)
        requires
            8 * self@.columns <= usize::MAX,
        ensures
            text@ == self@.text(),
    {
        proof {
            use_type_invariant(self);
        }
        let mut f = String::new();
        write_border_row(&mut f, '/', '\\', self.columns);
        let ghost top = f@;
        assert(top =~= border_row('/', '\\', self@.columns));

        for i in 0..self.rows - 1
            invariant
                self@.well_shaped(),
                f@ == top + self@.rows_text(i as nat),
        {
            let ghost above = f@;
            let ghost line = vertical_row(self@.vertical_walls_of(i as int));
            for lines in 0..VERTICAL_LENGTH
                invariant
                    i + 1 < self@.rows,
                    line == vertical_row(self@.vertical_walls_of(i as int)),
                    f@ == above + repeated(line, lines as nat),
            {
                write_vertical_row(&mut f, self, i);
                assert(f@ =~= above + repeated(line, (lines + 1) as nat));
            }
            write_horizontal_row(&mut f, self, i);
            assert(f@ =~= top + self@.rows_text((i + 1) as nat));
        }
        let ghost above = f@;
        let ghost line = vertical_row(self@.vertical_walls_of(self.rows - 1));
        write_vertical_row(&mut f, self, self.rows - 1);
        write_vertical_row(&mut f, self, self.rows - 1);
        proof {
            reveal_with_fuel(repeated, 3);
            assert(f@ =~= above + repeated(line, 2));
        }

        write_border_row(&mut f, '\\', '/', self.columns);
        assert(f@ =~= self@.text());
        f
    }

    /// The number of rows of cells.
    pub fn rows(&self) -> (rows: usize)
        ensures
            rows == self@.rows,
            self@.well_shaped(),
    {
        proof {
            use_type_invariant(self);
        }
        self.rows
    }

    /// The number of columns of cells.
    pub fn columns(&self) -> (columns: usize)
        ensures
            columns == self@.columns,
            self@.well_shaped(),
    {
        proof {
            use_type_invariant(self);
        }
        self.columns
    }

    /// Tells whether a wall of the grid stands.
    pub fn has_wall(&self, wall: WallIndex) -> (stands: bool)
        requires
            wall.fits(self@.rows as int, self@.columns as int),
        ensures
            stands == self@.has_wall(wall),
    {
        proof {
            use_type_invariant(self);
        }
        match wall.wall_type {
            WallType::Horizontal => wall_grid_get(&self.horizontal_walls, wall.i, wall.j),
            WallType::Vertical => wall_grid_get(&self.vertical_walls, wall.i, wall.j),
        }
    }
}

/// Adds the line that shows the horizontal walls below the cells of a row.
fn write_horizontal_row(f: &mut String, maze: &Maze, row_idx: usize)
    requires
        row_idx + 1 < maze@.rows,
    ensures
        final(f)@ == old(f)@ + horizontal_row(maze@.horizontal[row_idx as int]),
{
    proof {
        use_type_invariant(maze);
        reveal_strlit("| ");
        reveal_strlit(" + ");
        reveal_strlit(" |\n");
    }
    let ghost walls = maze@.horizontal[row_idx as int];
    f.append("| ");
    let ghost start = f@;

    let last = wall_grid_cols(&maze.horizontal_walls) - 1;
    for j in 0..last
        invariant
            row_idx + 1 < maze@.rows,
            walls == maze@.horizontal[row_idx as int],
            last + 1 == maze@.columns,
            f@ == start + horizontal_walls(walls, j as nat),
    {
        write_single_horizontal_wall(f, maze, row_idx, j);

        f.append(" + ");
        proof {
            reveal_strlit(" + ");
            assert(" + "@ =~= seq![' ', '+', ' ']);
            assert(f@ =~= start + horizontal_walls(walls, (j + 1) as nat));
        }
    }
    write_single_horizontal_wall(f, maze, row_idx, last);

    f.append(" |\n");
    proof {
        assert("| "@ =~= seq!['|', ' ']);
        assert(" |\n"@ =~= seq![' ', '|', '\n']);
        assert(f@ =~= old(f)@ + horizontal_row(walls));
    }
}

/// Adds the five signs that show one horizontal wall.
fn write_single_horizontal_wall(f: &mut String, maze: &Maze, row_idx: usize, j: usize)
    requires
        row_idx + 1 < maze@.rows,
        j < maze@.columns,
    ensures
        final(f)@ == old(f)@ + horizontal_wall(maze@.horizontal[row_idx as int][j as int]),
{
    proof {
        use_type_invariant(maze);
        reveal_strlit("-");
        reveal_strlit(" ");
    }
    let is_wall = if wall_grid_get(&maze.horizontal_walls, row_idx, j) {
        "-"
    } else {
        " "
    };
    proof {
        assert("-"@ =~= seq!['-']);
        assert(" "@ =~= seq![' ']);
    }
    write_rep(f, is_wall, HORIZONTAL_LENGTH - 2);
}

/// Adds `data` to the text, `repeat_count` times over.
pub fn write_rep(f: &mut String, data: &str, repeat_count: usize)
    ensures
        final(f)@ == old(f)@ + repeated(data@, repeat_count as nat),
{
    for written in 0..repeat_count
        invariant
            f@ == old(f)@ + repeated(data@, written as nat),
    {
        f.append(data);
        assert(f@ =~= old(f)@ + repeated(data@, (written + 1) as nat));
    }
}

/// Adds one of the two lines that show the cells of a row and the vertical
/// walls between them.
fn write_vertical_row(f: &mut String, maze: &Maze, row_idx: usize)
    requires
        row_idx < maze@.rows,
    ensures
        final(f)@ == old(f)@ + vertical_row(maze@.vertical_walls_of(row_idx as int)),
{
    proof {
        use_type_invariant(maze);
        reveal_strlit("| ");
        reveal_strlit(" ");
        reveal_strlit(" |\n");
    }
    let ghost walls = maze@.vertical_walls_of(row_idx as int);
    f.append("| ");
    let ghost start = f@;

    let columns = wall_grid_cols(&maze.vertical_walls);
    for j in 0..columns
        invariant
            row_idx < maze@.rows,
            maze@.well_shaped(),
            walls == maze@.vertical_walls_of(row_idx as int),
            columns == maze@.columns - 1,
            f@ == start + vertical_walls(walls, j as nat),
    {
        proof {
            reveal_strlit("| ");
            reveal_strlit(" ");
            assert("| "@ =~= seq!['|', ' ']);
            assert(" "@ =~= seq![' ']);
        }
        if wall_grid_get(&maze.vertical_walls, row_idx, j) {
            write_rep(f, " ", HORIZONTAL_LENGTH - 1);
            f.append("| ");
        } else {
            write_rep(f, " ", HORIZONTAL_LENGTH + 1);
        }
        assert(f@ =~= start + vertical_walls(walls, (j + 1) as nat));
    }

    write_rep(f, " ", HORIZONTAL_LENGTH - 2);
    f.append(" |\n");
    proof {
        assert("| "@ =~= seq!['|', ' ']);
        assert(" "@ =~= seq![' ']);
        assert(" |\n"@ =~= seq![' ', '|', '\n']);
        assert(f@ =~= old(f)@ + vertical_row(walls));
    }
}

/// Adds the line above or below the maze: a corner, dashes over the width
/// of `num_columns` cells, and the other corner.
pub fn write_border_row(f: &mut String, first_char: char, end_char: char, num_columns: usize)
    requires
        num_columns >= 1,
        8 * num_columns <= usize::MAX,
    ensures
        final(f)@ == old(f)@ + border_row(first_char, end_char, num_columns as nat),
{
    proof {
        reveal_strlit("-");
        reveal_strlit("\n");
    }
    push_char(f, first_char);
    let ghost start = f@;

    let num_dashes = (HORIZONTAL_LENGTH + 1) * num_columns - 1;
    for written in 0..num_dashes
        invariant
            f@ == start + repeated(seq!['-'], written as nat),
    {
        f.append("-");
        proof {
            reveal_strlit("-");
            assert("-"@ =~= seq!['-']);
            assert(f@ =~= start + repeated(seq!['-'], (written + 1) as nat));
        }
    }

    push_char(f, end_char);
    f.append("\n");
    proof {
        assert("\n"@ =~= seq!['\n']);
        assert(f@ =~= old(f)@ + border_row(first_char, end_char, num_columns as nat));
    }
}

/// A grid with one row or one column fewer is no larger.
proof fn lemma_sizes(rows: usize, columns: usize)
    requires
        rows >= 1,
        columns >= 1,
        rows * columns <= usize::MAX,
    ensures
        (rows - 1) * columns <= usize::MAX,
        rows * (columns - 1) <= usize::MAX,
{
    assert((rows - 1) * columns <= rows * columns && rows * (columns - 1) <= rows * columns)
        by (nonlinear_arith)
        requires
            rows >= 1,
            columns >= 1,
    ;
}

} // verus!
