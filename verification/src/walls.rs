//! The walls between the cells of a grid, and the walls that Kruskal's
//! algorithm opens when it is given them in some order.

use vstd::prelude::*;
use crate::graph::{
    lemma_reachable_across, lemma_reachable_mono, lemma_reachable_step, lemma_reachable_sym,
    lemma_reachable_trans, reachable,
};
use crate::partition::{
    class_count, is_partition, lemma_merged, lemma_single_class, lemma_singletons,
    lemma_tracks_merged, merged, singletons, tracks,
};

verus! {

/// The side of a cell on which a wall stands.
#[derive(Clone, Copy, Debug, PartialEq, Eq, Structural)]
pub enum WallType {
    /// Between a cell and the next cell of its row.
    Vertical,
    /// Between a cell and the cell below it.
    Horizontal,
}

/// A wall, named by the cell above it or to its left.
#[derive(Clone, Copy, Debug, PartialEq, Eq, Structural)]
pub struct WallIndex {
    pub i: usize,
    pub j: usize,
    pub wall_type: WallType,
}

/// The number of the cell in row `i` and column `j`, counting row by row.
pub open spec fn cell_number(columns: int, i: int, j: int) -> int {
    i * columns + j
}

impl WallIndex {
    /// The wall stands between two cells of a grid of the given size.
    pub open spec fn fits(self, rows: int, columns: int) -> bool {
        match self.wall_type {
            WallType::Horizontal => self.i + 1 < rows && self.j < columns,
            WallType::Vertical => self.i < rows && self.j + 1 < columns,
        }
    }

    /// The number of the cell that names the wall.
    pub open spec fn near(self, columns: int) -> int {
        cell_number(columns, self.i as int, self.j as int)
    }

    /// The number of the cell on the other side.
    pub open spec fn far(self, columns: int) -> int {
        match self.wall_type {
            WallType::Horizontal => cell_number(columns, self.i + 1, self.j as int),
            WallType::Vertical => cell_number(columns, self.i as int, self.j + 1),
        }
    }

    /// The two cells that the wall parts.
    pub open spec fn passage(self, columns: int) -> (int, int) {
        (self.near(columns), self.far(columns))
    }
}

/// The walls of one kind that are named by the cells of row `i`, from the
/// left: `count` of them.
pub open spec fn walls_in_row(i: int, count: int, wall_type: WallType) -> Seq<WallIndex> {
    Seq::new(
        count as nat,
        |j: int| WallIndex { i: i as usize, j: j as usize, wall_type: wall_type },
    )
}

/// The walls of one kind that are named by the cells of the first `rows`
/// rows, row by row from the top.
pub open spec fn walls_in_rows(rows: nat, count: int, wall_type: WallType) -> Seq<WallIndex>
    decreases rows,
{
    if rows == 0 {
        Seq::empty()
    } else {
        walls_in_rows((rows - 1) as nat, count, wall_type) + walls_in_row(
            rows - 1,
            count,
            wall_type,
        )
    }
}

/// Every wall of a grid once: the horizontal walls, then the vertical ones.
pub open spec fn candidates(rows: int, columns: int) -> Seq<WallIndex> {
    walls_in_rows((rows - 1) as nat, columns, WallType::Horizontal) + walls_in_rows(
        rows as nat,
        columns - 1,
        WallType::Vertical,
    )
}

/// The passages that a set of open walls leaves between cells.
pub open spec fn passages(columns: int, open: Set<WallIndex>) -> Set<(int, int)> {
    Set::new(
        |ends: (int, int)|
            exists|wall: WallIndex| #[trigger] open.contains(wall) && wall.passage(columns) == ends,
    )
}

/// The walls that are open after the walls of `order` were taken one by one
/// and each was opened unless its two cells were joined already.
pub open spec fn carved(columns: int, order: Seq<WallIndex>) -> Set<WallIndex>
    decreases order.len(),
{
    if order.len() == 0 {
        Set::empty()
    } else {
        let before = carved(columns, order.drop_last());
        let wall = order.last();
        if reachable(passages(columns, before), wall.near(columns), wall.far(columns)) {
            before
        } else {
            before.insert(wall)
        }
    }
}

/// The classes of `cells` cells after the cells on the two sides of each
/// wall of `order` were merged, one wall after the other.
pub open spec fn classes(cells: nat, columns: int, order: Seq<WallIndex>) -> Seq<int>
    decreases order.len(),
{
    if order.len() == 0 {
        singletons(cells)
    } else {
        merged(
            classes(cells, columns, order.drop_last()),
            order.last().near(columns),
            order.last().far(columns),
        )
    }
}

/// Every wall of `order` stands inside the grid.
pub open spec fn all_fit(rows: int, columns: int, order: Seq<WallIndex>) -> bool {
    forall|k: int| 0 <= k < order.len() ==> (#[trigger] order[k]).fits(rows, columns)
}

/// Every wall inside the grid occurs in `order`.
pub open spec fn covers(rows: int, columns: int, order: Seq<WallIndex>) -> bool {
    forall|wall: WallIndex| #[trigger] wall.fits(rows, columns) ==> order.contains(wall)
}

/// Every two cells of the grid are joined by passages.
pub open spec fn connects(rows: int, columns: int, open: Set<WallIndex>) -> bool {
    forall|a: int, b: int|
        0 <= a < rows * columns && 0 <= b < rows * columns ==> #[trigger] reachable(
            passages(columns, open),
            a,
            b,
        )
}

/// No passage closes a ring: with any one open wall shut again, the cells
/// on its two sides are no longer joined.
pub open spec fn ringless(columns: int, open: Set<WallIndex>) -> bool {
    forall|wall: WallIndex| #[trigger]
        open.contains(wall) ==> !reachable(
            passages(columns, open.remove(wall)),
            wall.near(columns),
            wall.far(columns),
        )
}

/// The open walls join all cells without a ring, and there is one fewer of
/// them than cells: between any two cells there is one way and no other.
pub open spec fn is_spanning_tree(rows: int, columns: int, open: Set<WallIndex>) -> bool {
    &&& connects(rows, columns, open)
    &&& ringless(columns, open)
    &&& open.finite()
    &&& open.len() == rows * columns - 1
    &&& forall|wall: WallIndex| #[trigger] open.contains(wall) ==> wall.fits(rows, columns)
}

/// The walls named by the first rows are those of the kind whose row and
/// column lie within the numbers given.
pub proof fn lemma_walls_in_rows(rows: nat, count: int, wall_type: WallType, wall: WallIndex)
    requires
        rows <= usize::MAX,
        0 <= count <= usize::MAX,
    ensures
        walls_in_rows(rows, count, wall_type).contains(wall) <==> wall.wall_type == wall_type
            && wall.i < rows && wall.j < count,
    decreases rows,
{
    if rows > 0 {
        let above = walls_in_rows((rows - 1) as nat, count, wall_type);
        let row = walls_in_row(rows - 1, count, wall_type);
        let all = walls_in_rows(rows, count, wall_type);
        lemma_walls_in_rows((rows - 1) as nat, count, wall_type, wall);
        if all.contains(wall) {
            let k = choose|k: int| 0 <= k < all.len() && all[k] == wall;
            if k < above.len() {
                assert(above[k] == wall);
            } else {
                assert(row[k - above.len()] == wall);
            }
        }
        if above.contains(wall) {
            let k = choose|k: int| 0 <= k < above.len() && above[k] == wall;
            assert(all[k] == wall);
        }
        if wall.wall_type == wall_type && wall.i == rows - 1 && wall.j < count {
            assert(row[wall.j as int] == wall);
            assert(all[above.len() + wall.j] == wall);
        }
    }
}

/// The candidates are the walls of the grid, all of them.
pub proof fn lemma_candidates(rows: int, columns: int)
    requires
        1 <= rows <= usize::MAX,
        1 <= columns <= usize::MAX,
    ensures
        all_fit(rows, columns, candidates(rows, columns)),
        covers(rows, columns, candidates(rows, columns)),
{
    let across = walls_in_rows((rows - 1) as nat, columns, WallType::Horizontal);
    let down = walls_in_rows(rows as nat, columns - 1, WallType::Vertical);
    let all = candidates(rows, columns);
    assert forall|k: int| 0 <= k < all.len() implies (#[trigger] all[k]).fits(rows, columns) by {
        let wall = all[k];
        lemma_walls_in_rows((rows - 1) as nat, columns, WallType::Horizontal, wall);
        lemma_walls_in_rows(rows as nat, columns - 1, WallType::Vertical, wall);
        if k < across.len() {
            assert(across[k] == wall);
        } else {
            assert(down[k - across.len()] == wall);
        }
    }
    assert forall|wall: WallIndex| #[trigger] wall.fits(rows, columns) implies all.contains(
        wall,
    ) by {
        lemma_walls_in_rows((rows - 1) as nat, columns, WallType::Horizontal, wall);
        lemma_walls_in_rows(rows as nat, columns - 1, WallType::Vertical, wall);
        if across.contains(wall) {
            let k = choose|k: int| 0 <= k < across.len() && across[k] == wall;
            assert(all[k] == wall);
        } else {
            let k = choose|k: int| 0 <= k < down.len() && down[k] == wall;
            assert(all[across.len() + k] == wall);
        }
    }
}

/// A rearrangement of walls holds the same walls.
pub proof fn lemma_rearranged(
    rows: int,
    columns: int,
    order: Seq<WallIndex>,
    walls: Seq<WallIndex>,
)
    requires
        order.to_multiset() == walls.to_multiset(),
    ensures
        all_fit(rows, columns, walls) ==> all_fit(rows, columns, order),
        covers(rows, columns, walls) ==> covers(rows, columns, order),
{
    order.to_multiset_ensures();
    walls.to_multiset_ensures();
    if all_fit(rows, columns, walls) {
        assert forall|k: int| 0 <= k < order.len() implies (#[trigger] order[k]).fits(
            rows,
            columns,
        ) by {
            assert(order.contains(order[k]));
            assert(order.to_multiset().count(order[k]) > 0);
            assert(walls.to_multiset().count(order[k]) > 0);
            assert(walls.contains(order[k]));
            let at = choose|at: int| 0 <= at < walls.len() && walls[at] == order[k];
            assert(walls[at].fits(rows, columns));
        }
    }
    if covers(rows, columns, walls) {
        assert forall|wall: WallIndex| #[trigger] wall.fits(rows, columns) implies order.contains(
            wall,
        ) by {
            assert(walls.contains(wall));
            assert(walls.to_multiset().count(wall) > 0);
            assert(order.to_multiset().count(wall) > 0);
        }
    }
}

/// The cells on both sides of a wall inside the grid are cells of the grid.
pub proof fn lemma_wall_ends(rows: int, columns: int, wall: WallIndex)
    requires
        wall.fits(rows, columns),
    ensures
        0 <= wall.near(columns) < rows * columns,
        0 <= wall.far(columns) < rows * columns,
        wall.near(columns) != wall.far(columns),
{
    let i = wall.i as int;
    let j = wall.j as int;
    assert(0 <= i * columns + j < rows * columns) by (nonlinear_arith)
        requires
            0 <= i < rows,
            0 <= j < columns,
    ;
    match wall.wall_type {
        WallType::Horizontal => {
            assert(0 <= (i + 1) * columns + j < rows * columns && (i + 1) * columns + j != i
                * columns + j) by (nonlinear_arith)
                requires
                    0 <= i + 1 < rows,
                    0 <= j < columns,
            ;
        },
        WallType::Vertical => {
            assert(0 <= i * columns + (j + 1) < rows * columns) by (nonlinear_arith)
                requires
                    0 <= i < rows,
                    0 <= j + 1 < columns,
            ;
        },
    }
}

/// Opening one more wall adds its passage and no other.
pub proof fn lemma_passages_insert(columns: int, open: Set<WallIndex>, wall: WallIndex)
    ensures
        passages(columns, open.insert(wall)) == passages(columns, open).insert(
            wall.passage(columns),
        ),
{
    let more = open.insert(wall);
    assert forall|ends: (int, int)|
        passages(columns, more).contains(ends) == passages(columns, open).insert(
            wall.passage(columns),
        ).contains(ends) by {
        if passages(columns, more).contains(ends) {
            let found = choose|found: WallIndex| #[trigger]
                more.contains(found) && found.passage(columns) == ends;
            if found != wall {
                assert(open.contains(found));
            }
        }
        if passages(columns, open).contains(ends) {
            let found = choose|found: WallIndex| #[trigger]
                open.contains(found) && found.passage(columns) == ends;
            assert(more.contains(found));
        }
        if ends == wall.passage(columns) {
            assert(more.contains(wall));
        }
    }
    assert(passages(columns, more) =~= passages(columns, open).insert(wall.passage(columns)));
}

/// The classes keep step with the open walls: two cells share a class
/// exactly when passages join them, and each open wall takes one class away.
pub proof fn lemma_carved_classes(rows: int, columns: int, order: Seq<WallIndex>)
    requires
        rows >= 1,
        columns >= 1,
        all_fit(rows, columns, order),
    ensures
        is_partition(classes((rows * columns) as nat, columns, order)),
        classes((rows * columns) as nat, columns, order).len() == rows * columns,
        tracks(
            classes((rows * columns) as nat, columns, order),
            passages(columns, carved(columns, order)),
        ),
        carved(columns, order).finite(),
        carved(columns, order).len() + class_count(
            classes((rows * columns) as nat, columns, order),
        ) == rows * columns,
        forall|wall: WallIndex| #[trigger]
            carved(columns, order).contains(wall) ==> wall.fits(rows, columns) && order.contains(
                wall,
            ),
    decreases order.len(),
{
    assert(rows * columns >= 1) by (nonlinear_arith)
        requires
            rows >= 1,
            columns >= 1,
    ;
    let cells = (rows * columns) as nat;
    if order.len() == 0 {
        lemma_singletons(cells);
        assert(passages(columns, Set::<WallIndex>::empty()) =~= Set::<(int, int)>::empty());
    } else {
        let earlier = order.drop_last();
        let wall = order.last();
        let a = wall.near(columns);
        let b = wall.far(columns);
        let reps = classes(cells, columns, earlier);
        let open = carved(columns, earlier);
        assert forall|k: int| 0 <= k < earlier.len() implies (#[trigger] earlier[k]).fits(
            rows,
            columns,
        ) by {
            assert(earlier[k] == order[k]);
        }
        lemma_carved_classes(rows, columns, earlier);
        assert(order[order.len() - 1].fits(rows, columns));
        lemma_wall_ends(rows, columns, wall);
        lemma_merged(reps, a, b);
        lemma_tracks_merged(reps, passages(columns, open), a, b);
        assert forall|found: WallIndex| #[trigger] open.contains(found) implies order.contains(
            found,
        ) by {
            let k = choose|k: int| 0 <= k < earlier.len() && earlier[k] == found;
            assert(order[k] == found);
        }
        if reachable(passages(columns, open), a, b) {
            assert(reps[a] == reps[b]);
        } else {
            assert(reps[a] != reps[b]);
            lemma_passages_insert(columns, open, wall);
            if open.contains(wall) {
                assert(passages(columns, open).contains((a, b)));
                lemma_reachable_step(passages(columns, open), a, b);
            }
        }
    }
}

/// The walls that were opened close no ring, whatever the order.
pub proof fn lemma_carved_ringless(columns: int, order: Seq<WallIndex>)
    ensures
        ringless(columns, carved(columns, order)),
    decreases order.len(),
{
    if order.len() > 0 {
        let open = carved(columns, order.drop_last());
        let last = order.last();
        let a = last.near(columns);
        let b = last.far(columns);
        let joined = passages(columns, open);
        lemma_carved_ringless(columns, order.drop_last());
        if !reachable(joined, a, b) {
            let more = open.insert(last);
            if open.contains(last) {
                assert(joined.contains((a, b)));
                lemma_reachable_step(joined, a, b);
            }
            assert forall|wall: WallIndex| #[trigger] more.contains(wall) implies !reachable(
                passages(columns, more.remove(wall)),
                wall.near(columns),
                wall.far(columns),
            ) by {
                let x = wall.near(columns);
                let y = wall.far(columns);
                if wall == last {
                    assert(more.remove(wall) =~= open);
                } else {
                    let others = open.remove(wall);
                    let left = passages(columns, others);
                    assert(more.remove(wall) =~= others.insert(last));
                    lemma_passages_insert(columns, others, last);
                    assert(others.insert(wall) =~= open);
                    lemma_passages_insert(columns, others, wall);
                    assert(joined == left.insert((x, y)));
                    if reachable(left.insert((a, b)), x, y) {
                        lemma_reachable_across(left, a, b, x, y);
                        lemma_reachable_step(joined, x, y);
                        lemma_reachable_sym(joined, x, y);
                        if reachable(left, x, a) && reachable(left, b, y) {
                            lemma_reachable_mono(left, joined, x, a);
                            lemma_reachable_mono(left, joined, b, y);
                            lemma_reachable_sym(joined, x, a);
                            lemma_reachable_sym(joined, b, y);
                            lemma_reachable_trans(joined, a, x, y);
                            lemma_reachable_trans(joined, a, y, b);
                        } else {
                            lemma_reachable_mono(left, joined, x, b);
                            lemma_reachable_mono(left, joined, a, y);
                            lemma_reachable_sym(joined, x, b);
                            lemma_reachable_trans(joined, a, y, x);
                            lemma_reachable_trans(joined, a, x, b);
                        }
                    }
                }
            }
        }
    }
}

/// Walls that were merged share a class ever after.
pub proof fn lemma_classes_join(rows: int, columns: int, order: Seq<WallIndex>, wall: WallIndex)
    requires
        rows >= 1,
        columns >= 1,
        all_fit(rows, columns, order),
        order.contains(wall),
    ensures
        classes((rows * columns) as nat, columns, order)[wall.near(columns)] == classes(
            (rows * columns) as nat,
            columns,
            order,
        )[wall.far(columns)],
    decreases order.len(),
{
    let cells = (rows * columns) as nat;
    let earlier = order.drop_last();
    let last = order.last();
    let at = choose|k: int| 0 <= k < order.len() && order[k] == wall;
    assert forall|k: int| 0 <= k < earlier.len() implies (#[trigger] earlier[k]).fits(
        rows,
        columns,
    ) by {
        assert(earlier[k] == order[k]);
    }
    lemma_carved_classes(rows, columns, earlier);
    assert(order[order.len() - 1].fits(rows, columns));
    assert(order[at].fits(rows, columns));
    lemma_wall_ends(rows, columns, last);
    lemma_wall_ends(rows, columns, wall);
    let reps = classes(cells, columns, earlier);
    lemma_merged(reps, last.near(columns), last.far(columns));
    if at < order.len() - 1 {
        assert(earlier[at] == wall);
        lemma_classes_join(rows, columns, earlier, wall);
    }
}

/// Where every wall of the grid was taken, each cell shares the class of
/// the first: the wall to its left, or above it, leads one cell nearer.
proof fn lemma_classes_reach_first(rows: int, columns: int, order: Seq<WallIndex>, cell: int)
    requires
        1 <= rows <= usize::MAX,
        1 <= columns <= usize::MAX,
        all_fit(rows, columns, order),
        covers(rows, columns, order),
        0 <= cell < rows * columns,
    ensures
        classes((rows * columns) as nat, columns, order)[cell] == classes(
            (rows * columns) as nat,
            columns,
            order,
        )[0],
    decreases cell,
{
    if cell > 0 {
        let i = cell / columns;
        let j = cell % columns;
        assert(cell == i * columns + j && 0 <= j < columns && 0 <= i < rows && (j == 0 ==> i > 0))
            by (nonlinear_arith)
            requires
                cell > 0,
                i == cell / columns,
                j == cell % columns,
                0 <= cell < rows * columns,
                columns >= 1,
                rows >= 1,
        ;
        if j > 0 {
            let wall = WallIndex {
                i: i as usize,
                j: (j - 1) as usize,
                wall_type: WallType::Vertical,
            };
            assert(wall.fits(rows, columns));
            assert(wall.far(columns) == cell);
            assert(wall.near(columns) == cell - 1);
            lemma_classes_join(rows, columns, order, wall);
            lemma_classes_reach_first(rows, columns, order, cell - 1);
        } else {
            let wall = WallIndex {
                i: (i - 1) as usize,
                j: 0,
                wall_type: WallType::Horizontal,
            };
            assert(i > 0);
            assert(wall.fits(rows, columns));
            assert(wall.far(columns) == cell);
            assert(wall.near(columns) == (i - 1) * columns);
            assert((i - 1) * columns == cell - columns) by (nonlinear_arith)
                requires
                    cell == i * columns + j,
                    j == 0,
            ;
            lemma_classes_join(rows, columns, order, wall);
            lemma_classes_reach_first(rows, columns, order, cell - columns);
        }
    }
}

/// Whatever the order, where it holds every wall of the grid and no other,
/// the walls that were opened leave exactly one way between any two cells.
pub proof fn lemma_carved_is_spanning_tree(rows: int, columns: int, order: Seq<WallIndex>)
    requires
        1 <= rows <= usize::MAX,
        1 <= columns <= usize::MAX,
        all_fit(rows, columns, order),
        covers(rows, columns, order),
    ensures
        is_spanning_tree(rows, columns, carved(columns, order)),
{
    assert(rows * columns >= 1) by (nonlinear_arith)
        requires
            rows >= 1,
            columns >= 1,
    ;
    let cells = (rows * columns) as nat;
    let reps = classes(cells, columns, order);
    let open = carved(columns, order);
    lemma_carved_classes(rows, columns, order);
    assert forall|cell: int| 0 <= cell < reps.len() implies #[trigger] reps[cell] == reps[0] by {
        lemma_classes_reach_first(rows, columns, order, cell);
    }
    lemma_single_class(reps);
    lemma_carved_ringless(columns, order);
    assert forall|a: int, b: int|
        0 <= a < rows * columns && 0 <= b < rows * columns implies #[trigger] reachable(
        passages(columns, open),
        a,
        b,
    ) by {
        assert(reps[a] == reps[0]);
        assert(reps[b] == reps[0]);
    }
}

/// Lists every wall of a grid once: the horizontal walls row by row, then
/// the vertical walls row by row.
pub fn candidate_walls(rows: usize, columns: usize) -> (walls: Vec<WallIndex>)
    requires
        rows >= 1,
        columns >= 1,
    ensures
        walls@ == candidates(rows as int, columns as int),
{
    let mut wall_indices: Vec<WallIndex> = Vec::new();
    for i in 0..rows - 1
        invariant
            wall_indices@ == walls_in_rows(i as nat, columns as int, WallType::Horizontal),
    {
        let ghost above = wall_indices@;
        for j in 0..columns
            invariant
                wall_indices@ == above + walls_in_row(i as int, j as int, WallType::Horizontal),
        {
            wall_indices.push(WallIndex { i, j, wall_type: WallType::Horizontal });
            assert(wall_indices@ =~= above + walls_in_row(
                i as int,
                j + 1,
                WallType::Horizontal,
            ));
        }
    }
    let ghost across = wall_indices@;
    for i in 0..rows
        invariant
            columns >= 1,
            wall_indices@ == across + walls_in_rows(
                i as nat,
                columns - 1,
                WallType::Vertical,
            ),
    {
        let ghost above = wall_indices@;
        for j in 0..columns - 1
            invariant
                wall_indices@ == above + walls_in_row(i as int, j as int, WallType::Vertical),
        {
            wall_indices.push(WallIndex { i, j, wall_type: WallType::Vertical });
            assert(wall_indices@ =~= above + walls_in_row(i as int, j + 1, WallType::Vertical));
        }
        assert(wall_indices@ =~= across + walls_in_rows(
            (i + 1) as nat,
            columns - 1,
            WallType::Vertical,
        ));
    }
    wall_indices
}

} // verus!
