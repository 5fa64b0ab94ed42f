//! What a maze is, apart from how it is stored: its size, its walls, and the
//! text that shows it.

use vstd::prelude::*;
use crate::grids::filled;
use crate::walls::{is_spanning_tree, WallIndex, WallType};

verus! {

/// `count` copies of `piece`, one after the other.
pub open spec fn repeated(piece: Seq<char>, count: nat) -> Seq<char>
    decreases count,
{
    if count == 0 {
        Seq::empty()
    } else {
        repeated(piece, (count - 1) as nat) + piece
    }
}

/// The line above or below a maze of `columns` columns: a corner, dashes,
/// a corner, and the end of the line.
pub open spec fn border_row(first: char, last: char, columns: nat) -> Seq<char> {
    seq![first] + repeated(seq!['-'], (8 * columns - 1) as nat) + seq![last] + seq!['\n']
}

/// A wall below a cell: five dashes where it stands, five blanks where not.
pub open spec fn horizontal_wall(stands: bool) -> Seq<char> {
    repeated(
        if stands {
            seq!['-']
        } else {
            seq![' ']
        },
        5,
    )
}

/// The first `count` walls of a row of horizontal walls, each followed by the
/// sign that parts it from the next.
pub open spec fn horizontal_walls(walls: Seq<bool>, count: nat) -> Seq<char>
    decreases count,
{
    if count == 0 {
        Seq::empty()
    } else {
        horizontal_walls(walls, (count - 1) as nat) + horizontal_wall(walls[count - 1])
            + seq![' ', '+', ' ']
    }
}

/// The line that shows a row of horizontal walls.
pub open spec fn horizontal_row(walls: Seq<bool>) -> Seq<char> {
    seq!['|', ' '] + horizontal_walls(walls, (walls.len() - 1) as nat) + horizontal_wall(
        walls.last(),
    ) + seq![' ', '|', '\n']
}

/// A cell and the wall to its right: the wall after six blanks where it
/// stands, eight blanks where not.
pub open spec fn vertical_wall(stands: bool) -> Seq<char> {
    if stands {
        repeated(seq![' '], 6) + seq!['|', ' ']
    } else {
        repeated(seq![' '], 8)
    }
}

/// The first `count` cells of a row with the walls to their right.
pub open spec fn vertical_walls(walls: Seq<bool>, count: nat) -> Seq<char>
    decreases count,
{
    if count == 0 {
        Seq::empty()
    } else {
        vertical_walls(walls, (count - 1) as nat) + vertical_wall(walls[count - 1])
    }
}

/// One of the two lines that show a row of cells. `walls` are the vertical
/// walls of the row; the last cell has none to its right.
pub open spec fn vertical_row(walls: Seq<bool>) -> Seq<char> {
    seq!['|', ' '] + vertical_walls(walls, walls.len()) + repeated(seq![' '], 5) + seq![
        ' ',
        '|',
        '\n',
    ]
}

/// A grid of walls has `rows` rows of `columns` walls each; with a zero
/// among the two it has no rows at all.
pub open spec fn has_shape<T>(grid: Seq<Seq<T>>, rows: nat, columns: nat) -> bool {
    if rows == 0 || columns == 0 {
        grid.len() == 0
    } else {
        grid.len() == rows && forall|i: int| 0 <= i < rows ==> (#[trigger] grid[i]).len() == columns
    }
}

/// What a maze is: its size, and for each wall whether it stands.
pub struct MazeView {
    /// The number of rows of cells.
    pub rows: nat,
    /// The number of columns of cells.
    pub columns: nat,
    /// The walls below the cells of all rows but the last: `true` where the
    /// wall stands.
    pub horizontal: Seq<Seq<bool>>,
    /// The walls to the right of the cells of all columns but the last.
    pub vertical: Seq<Seq<bool>>,
}

impl MazeView {
    /// There is at least one cell, and a wall for each pair of neighbours.
    pub open spec fn well_shaped(self) -> bool {
        &&& self.rows >= 1
        &&& self.columns >= 1
        &&& has_shape(self.horizontal, (self.rows - 1) as nat, self.columns)
        &&& has_shape(self.vertical, self.rows, (self.columns - 1) as nat)
    }

    /// The wall stands.
    pub open spec fn has_wall(self, wall: WallIndex) -> bool {
        match wall.wall_type {
            WallType::Horizontal => self.horizontal[wall.i as int][wall.j as int],
            WallType::Vertical => self.vertical[wall.i as int][wall.j as int],
        }
    }

    /// The walls of the grid that do not stand.
    pub open spec fn open_walls(self) -> Set<WallIndex> {
        Set::new(
            |wall: WallIndex|
                wall.fits(self.rows as int, self.columns as int) && !self.has_wall(wall),
        )
    }

    /// Between any two cells there is one way and no other.
    pub open spec fn is_perfect(self) -> bool {
        is_spanning_tree(self.rows as int, self.columns as int, self.open_walls())
    }

    /// The maze in which every wall is as `wall` says.
    pub open spec fn uniform(rows: nat, columns: nat, wall: bool) -> MazeView {
        MazeView {
            rows: rows,
            columns: columns,
            horizontal: filled((rows - 1) as nat, columns, wall),
            vertical: filled(rows, (columns - 1) as nat, wall),
        }
    }

    /// The maze in which exactly the walls of `open` do not stand.
    pub open spec fn walled(rows: nat, columns: nat, open: Set<WallIndex>) -> MazeView {
        MazeView {
            rows: rows,
            columns: columns,
            horizontal: if rows <= 1 || columns == 0 {
                Seq::empty()
            } else {
                Seq::new(
                    (rows - 1) as nat,
                    |i: int|
                        Seq::new(
                            columns,
                            |j: int|
                                !open.contains(
                                    WallIndex {
                                        i: i as usize,
                                        j: j as usize,
                                        wall_type: WallType::Horizontal,
                                    },
                                ),
                        ),
                )
            },
            vertical: if rows == 0 || columns <= 1 {
                Seq::empty()
            } else {
                Seq::new(
                    rows,
                    |i: int|
                        Seq::new(
                            (columns - 1) as nat,
                            |j: int|
                                !open.contains(
                                    WallIndex {
                                        i: i as usize,
                                        j: j as usize,
                                        wall_type: WallType::Vertical,
                                    },
                                ),
                        ),
                )
            },
        }
    }

    /// The vertical walls of row `i`: none where the maze has one column.
    pub open spec fn vertical_walls_of(self, i: int) -> Seq<bool> {
        if self.columns <= 1 {
            Seq::empty()
        } else {
            self.vertical[i]
        }
    }

    /// The lines of the first `count` rows of cells, each row with the
    /// horizontal walls below it.
    pub open spec fn rows_text(self, count: nat) -> Seq<char>
        decreases count,
    {
        if count == 0 {
            Seq::empty()
        } else {
            self.rows_text((count - 1) as nat) + repeated(
                vertical_row(self.vertical_walls_of(count - 1)),
                2,
            ) + horizontal_row(self.horizontal[count - 1])
        }
    }

    /// The text that shows the maze: a border, two lines for each row of
    /// cells, a line of walls between two rows, and a border.
    pub open spec fn text(self) -> Seq<char> {
        border_row('/', '\\', self.columns) + self.rows_text((self.rows - 1) as nat) + repeated(
            vertical_row(self.vertical_walls_of(self.rows - 1)),
            2,
        ) + border_row('\\', '/', self.columns)
    }

    /// With no wall open, every wall stands.
    pub proof fn lemma_walled_nothing(rows: nat, columns: nat)
        requires
            rows >= 1,
            columns >= 1,
        ensures
            MazeView::walled(rows, columns, Set::empty()) == MazeView::uniform(rows, columns, true),
    {
        let left = MazeView::walled(rows, columns, Set::empty());
        let right = MazeView::uniform(rows, columns, true);
        assert(left.horizontal =~~= right.horizontal);
        assert(left.vertical =~~= right.vertical);
    }

    /// A maze made from a set of walls of the grid has the right shape, and
    /// its open walls are that set.
    pub proof fn lemma_walled(rows: nat, columns: nat, open: Set<WallIndex>)
        requires
            1 <= rows <= usize::MAX,
            1 <= columns <= usize::MAX,
            forall|wall: WallIndex| #[trigger]
                open.contains(wall) ==> wall.fits(rows as int, columns as int),
        ensures
            MazeView::walled(rows, columns, open).well_shaped(),
            MazeView::walled(rows, columns, open).open_walls() == open,
    {
        let maze = MazeView::walled(rows, columns, open);
        assert forall|wall: WallIndex| maze.open_walls().contains(wall) == open.contains(wall) by {
            if wall.fits(rows as int, columns as int) {
                let rebuilt = WallIndex {
                    i: (wall.i as int) as usize,
                    j: (wall.j as int) as usize,
                    wall_type: wall.wall_type,
                };
                assert(rebuilt == wall);
            }
        }
        assert(maze.open_walls() =~= open);
    }

    /// Opening one more wall of the grid changes the place of that wall and
    /// no other.
    pub proof fn lemma_walled_insert(
        rows: nat,
        columns: nat,
        open: Set<WallIndex>,
        wall: WallIndex,
    )
        requires
            1 <= rows <= usize::MAX,
            1 <= columns <= usize::MAX,
            wall.fits(rows as int, columns as int),
        ensures
            MazeView::walled(rows, columns, open.insert(wall)) == match wall.wall_type {
                WallType::Horizontal => MazeView {
                    horizontal: MazeView::walled(rows, columns, open).horizontal.update(
                        wall.i as int,
                        MazeView::walled(rows, columns, open).horizontal[wall.i as int].update(
                            wall.j as int,
                            false,
                        ),
                    ),
                    ..MazeView::walled(rows, columns, open)
                },
                WallType::Vertical => MazeView {
                    vertical: MazeView::walled(rows, columns, open).vertical.update(
                        wall.i as int,
                        MazeView::walled(rows, columns, open).vertical[wall.i as int].update(
                            wall.j as int,
                            false,
                        ),
                    ),
                    ..MazeView::walled(rows, columns, open)
                },
            },
    {
        let before = MazeView::walled(rows, columns, open);
        let after = MazeView::walled(rows, columns, open.insert(wall));
        match wall.wall_type {
            WallType::Horizontal => {
                assert(after.horizontal =~~= before.horizontal.update(
                    wall.i as int,
                    before.horizontal[wall.i as int].update(wall.j as int, false),
                ));
                assert(after.vertical =~~= before.vertical);
            },
            WallType::Vertical => {
                assert(after.vertical =~~= before.vertical.update(
                    wall.i as int,
                    before.vertical[wall.i as int].update(wall.j as int, false),
                ));
                assert(after.horizontal =~~= before.horizontal);
            },
        }
    }
}

} // verus!
