use kruskal_maze::maze::{write_border_row, write_rep, Maze};
use kruskal_maze::walls::{candidate_walls, WallIndex, WallType};

fn horizontal(i: usize, j: usize) -> WallIndex {
    WallIndex { i, j, wall_type: WallType::Horizontal }
}

fn vertical(i: usize, j: usize) -> WallIndex {
    WallIndex { i, j, wall_type: WallType::Vertical }
}

fn open_count(maze: &Maze) -> usize {
    candidate_walls(maze.rows(), maze.columns())
        .into_iter()
        .filter(|wall| !maze.has_wall(*wall))
        .count()
}

/// The number of cells that can be reached from the first cell.
fn reached_from_first(maze: &Maze) -> usize {
    let rows = maze.rows();
    let columns = maze.columns();
    let mut seen = vec![false; rows * columns];
    let mut pending = vec![(0usize, 0usize)];
    seen[0] = true;
    let mut count = 0;
    while let Some((i, j)) = pending.pop() {
        count += 1;
        let mut next = Vec::new();
        if i + 1 < rows && !maze.has_wall(horizontal(i, j)) {
            next.push((i + 1, j));
        }
        if i > 0 && !maze.has_wall(horizontal(i - 1, j)) {
            next.push((i - 1, j));
        }
        if j + 1 < columns && !maze.has_wall(vertical(i, j)) {
            next.push((i, j + 1));
        }
        if j > 0 && !maze.has_wall(vertical(i, j - 1)) {
            next.push((i, j - 1));
        }
        for (a, b) in next {
            if !seen[a * columns + b] {
                seen[a * columns + b] = true;
                pending.push((a, b));
            }
        }
    }
    count
}

fn walls_of(maze: &Maze) -> Vec<bool> {
    candidate_walls(maze.rows(), maze.columns())
        .into_iter()
        .map(|wall| maze.has_wall(wall))
        .collect()
}

const SIZES: [(usize, usize); 9] =
    [(1, 1), (1, 2), (2, 1), (2, 2), (1, 7), (7, 1), (3, 5), (6, 4), (12, 9)];

#[test]
fn two_by_two_opens_three_of_four_walls() {
    assert_eq!(candidate_walls(2, 2).len(), 4);
    for _ in 0..50 {
        let maze = Maze::random(2, 2);
        assert_eq!(open_count(&maze), 3);
    }
}

#[test]
fn two_by_two_opens_three_walls_in_every_order() {
    let walls = candidate_walls(2, 2);
    let mut orders = Vec::new();
    for a in 0..4 {
        for b in 0..4 {
            for c in 0..4 {
                for d in 0..4 {
                    let picks = [a, b, c, d];
                    if (0..4).all(|wanted| picks.contains(&wanted)) {
                        orders.push(picks.iter().map(|&at| walls[at]).collect::<Vec<_>>());
                    }
                }
            }
        }
    }
    assert_eq!(orders.len(), 24);
    for order in orders {
        let maze = Maze::carve(2, 2, &order);
        assert_eq!(open_count(&maze), 3);
        // The wall that comes last closes the ring and stays.
        assert!(maze.has_wall(order[3]));
        assert!(!maze.has_wall(order[0]));
        assert!(!maze.has_wall(order[1]));
        assert!(!maze.has_wall(order[2]));
    }
}

#[test]
fn every_cell_is_reached_in_random_mazes() {
    for (rows, columns) in SIZES {
        for _ in 0..5 {
            let maze = Maze::random(rows, columns);
            assert_eq!(reached_from_first(&maze), rows * columns);
        }
    }
}

#[test]
fn random_mazes_open_one_wall_fewer_than_cells() {
    for (rows, columns) in SIZES {
        for _ in 0..5 {
            let maze = Maze::random(rows, columns);
            assert_eq!(maze.rows(), rows);
            assert_eq!(maze.columns(), columns);
            assert_eq!(open_count(&maze), rows * columns - 1);
        }
    }
}

#[test]
fn random_mazes_differ() {
    let first = walls_of(&Maze::random(5, 5));
    let mut differs = false;
    for _ in 0..40 {
        if walls_of(&Maze::random(5, 5)) != first {
            differs = true;
        }
    }
    assert!(differs);
}

#[test]
fn the_same_order_gives_the_same_maze() {
    for (rows, columns) in SIZES {
        let mut order = candidate_walls(rows, columns);
        order.reverse();
        let count = order.len();
        if count > 2 {
            order.swap(0, count / 2);
            order.swap(1, count - 1);
        }
        let first = Maze::carve(rows, columns, &order);
        let second = Maze::carve(rows, columns, &order);
        assert_eq!(walls_of(&first), walls_of(&second));
        assert_eq!(first.render(), second.render());
        assert_eq!(reached_from_first(&first), rows * columns);
        assert_eq!(open_count(&first), rows * columns - 1);
    }
}

#[test]
fn walls_in_their_listed_order_open_a_comb() {
    // All horizontal walls come first and are opened; of the vertical walls
    // only those of the first row are still needed.
    let maze = Maze::carve(3, 3, &candidate_walls(3, 3));
    for i in 0..2 {
        for j in 0..3 {
            assert!(!maze.has_wall(horizontal(i, j)));
        }
    }
    for j in 0..2 {
        assert!(!maze.has_wall(vertical(0, j)));
        assert!(maze.has_wall(vertical(1, j)));
        assert!(maze.has_wall(vertical(2, j)));
    }
}

#[test]
fn a_wall_given_twice_is_opened_once() {
    let order = vec![vertical(0, 0), vertical(0, 0), horizontal(0, 0), vertical(0, 0)];
    let maze = Maze::carve(2, 2, &order);
    assert!(!maze.has_wall(vertical(0, 0)));
    assert!(!maze.has_wall(horizontal(0, 0)));
    assert!(maze.has_wall(horizontal(0, 1)));
    assert!(maze.has_wall(vertical(1, 0)));
    assert_eq!(open_count(&maze), 2);
}

#[test]
fn no_walls_given_leaves_every_wall() {
    let maze = Maze::carve(3, 2, &Vec::new());
    assert_eq!(open_count(&maze), 0);
    assert_eq!(maze.render(), Maze::full(3, 2).render());
}

#[test]
fn a_single_cell_has_no_walls_to_open() {
    assert!(candidate_walls(1, 1).is_empty());
    let maze = Maze::random(1, 1);
    assert_eq!(maze.rows(), 1);
    assert_eq!(maze.columns(), 1);
    assert_eq!(open_count(&maze), 0);
    assert_eq!(maze.render(), "/-------\\\n|       |\n|       |\n\\-------/\n");
}

#[test]
fn candidates_are_listed_row_by_row() {
    assert_eq!(
        candidate_walls(2, 2),
        vec![horizontal(0, 0), horizontal(0, 1), vertical(0, 0), vertical(1, 0)]
    );
    assert_eq!(
        candidate_walls(2, 3),
        vec![
            horizontal(0, 0),
            horizontal(0, 1),
            horizontal(0, 2),
            vertical(0, 0),
            vertical(0, 1),
            vertical(1, 0),
            vertical(1, 1),
        ]
    );
    assert_eq!(candidate_walls(1, 3), vec![vertical(0, 0), vertical(0, 1)]);
    assert_eq!(candidate_walls(3, 1), vec![horizontal(0, 0), horizontal(1, 0)]);
    assert_eq!(candidate_walls(4, 6).len(), 3 * 6 + 4 * 5);
}

#[test]
fn full_maze_has_every_wall() {
    let maze = Maze::full(3, 4);
    assert_eq!(maze.rows(), 3);
    assert_eq!(maze.columns(), 4);
    assert_eq!(open_count(&maze), 0);
    assert!(maze.has_wall(horizontal(1, 3)));
    assert!(maze.has_wall(vertical(2, 2)));
}

#[test]
fn empty_maze_has_no_wall() {
    let maze = Maze::empty(3, 4);
    assert_eq!(maze.rows(), 3);
    assert_eq!(maze.columns(), 4);
    assert_eq!(open_count(&maze), 2 * 4 + 3 * 3);
    assert!(!maze.has_wall(horizontal(1, 3)));
    assert!(!maze.has_wall(vertical(2, 2)));
    assert_eq!(reached_from_first(&maze), 12);
}

#[test]
fn full_two_by_two_is_drawn_with_every_wall() {
    let expected = "/---------------\\\n\
                    |       |       |\n\
                    |       |       |\n\
                    | ----- + ----- |\n\
                    |       |       |\n\
                    |       |       |\n\
                    \\---------------/\n";
    assert_eq!(Maze::full(2, 2).render(), expected);
}

#[test]
fn empty_two_by_two_is_drawn_without_walls() {
    let expected = "/---------------\\\n\
                    |               |\n\
                    |               |\n\
                    |       +       |\n\
                    |               |\n\
                    |               |\n\
                    \\---------------/\n";
    assert_eq!(Maze::empty(2, 2).render(), expected);
}

#[test]
fn a_carved_maze_is_drawn_wall_by_wall() {
    // Open: the wall right of the first cell, the wall below the second
    // cell of the first row, and the wall right of the first cell below.
    let order = vec![vertical(0, 0), horizontal(0, 1), vertical(1, 0), horizontal(0, 0)];
    let maze = Maze::carve(2, 3, &order);
    let expected = "/-----------------------\\\n\
                    |               |       |\n\
                    |               |       |\n\
                    | ----- +       + ----- |\n\
                    |               |       |\n\
                    |               |       |\n\
                    \\-----------------------/\n";
    assert_eq!(maze.render(), expected);
}

#[test]
fn a_single_row_and_a_single_column_are_drawn() {
    assert_eq!(
        Maze::full(1, 2).render(),
        "/---------------\\\n|       |       |\n|       |       |\n\\---------------/\n"
    );
    assert_eq!(
        Maze::full(2, 1).render(),
        "/-------\\\n|       |\n|       |\n| ----- |\n|       |\n|       |\n\\-------/\n"
    );
}

#[test]
fn every_line_of_the_drawing_has_the_width_of_the_border() {
    let maze = Maze::random(4, 5);
    let text = maze.render();
    let lines: Vec<&str> = text.lines().collect();
    assert_eq!(lines.len(), 3 * 4 + 1);
    for line in lines {
        assert_eq!(line.len(), 8 * 5 + 1);
    }
    assert!(text.ends_with('\n'));
}

#[test]
fn write_rep_repeats_the_text() {
    let mut out = String::from("x");
    write_rep(&mut out, "ab", 3);
    assert_eq!(out, "xababab");
    write_rep(&mut out, "c", 0);
    assert_eq!(out, "xababab");
}

#[test]
fn write_border_row_spans_the_columns() {
    let mut out = String::new();
    write_border_row(&mut out, '/', '\\', 1);
    assert_eq!(out, "/-------\\\n");
    write_border_row(&mut out, '\\', '/', 3);
    assert_eq!(out, "/-------\\\n\\-----------------------/\n");
}
