use maze_raycaster::maze::Maze;
use maze_raycaster::path::next_step_bfs;
use maze_raycaster::sprite::line_of_sight;

fn rows(lines: &[&str]) -> Maze {
    lines.iter().map(|l| l.chars().collect()).collect()
}

fn divided() -> Maze {
    rows(&["+---+", "| | |", "|   |", "+---+"])
}

/// How many steps the search takes to bring an agent from one cell to
/// another, following it cell by cell.
fn route(maze: &Maze, from: (i32, i32), to: (i32, i32)) -> Option<usize> {
    let mut at = from;
    let mut steps = 0;
    while (at.0 / 100, at.1 / 100) != (to.0 / 100, to.1 / 100) {
        let next = next_step_bfs(maze, at.0, at.1, to.0, to.1, 100)?;
        let moved = ((next.0 - at.0 as i64).abs() + (next.1 - at.1 as i64).abs()) / 100;
        assert_eq!(moved, 1);
        at = (next.0 as i32, next.1 as i32);
        steps += 1;
        assert!(steps < 1000);
    }
    Some(steps)
}

#[test]
fn a_wall_between_two_cells_blocks_the_view() {
    let maze = divided();
    assert!(!line_of_sight(&maze, 150, 150, 350, 150, 100));
    assert!(!line_of_sight(&maze, 350, 150, 150, 150, 100));
}

#[test]
fn around_a_wall_the_first_step_goes_sideways() {
    let maze = divided();
    // Straight on lies the wall; the way round starts downwards.
    assert_eq!(next_step_bfs(&maze, 150, 150, 350, 150, 100), Some((150, 250)));
    assert_eq!(next_step_bfs(&maze, 350, 150, 150, 150, 100), Some((350, 250)));
}

#[test]
fn open_cells_in_a_line_see_each_other() {
    let maze = divided();
    assert!(line_of_sight(&maze, 150, 250, 350, 250, 100));
    assert!(line_of_sight(&maze, 350, 250, 150, 250, 100));
    assert!(line_of_sight(&maze, 150, 150, 150, 250, 100));
    assert!(line_of_sight(&maze, 110, 110, 190, 190, 100));
}

#[test]
fn nothing_is_seen_from_or_in_a_wall() {
    let maze = divided();
    assert!(!line_of_sight(&maze, 50, 50, 150, 150, 100));
    assert!(!line_of_sight(&maze, 150, 150, 50, 50, 100));
    assert!(!line_of_sight(&maze, 150, 150, 150, -50, 100));
    assert!(!line_of_sight(&maze, -50, -50, -50, -50, 100));
    let empty: Maze = Vec::new();
    assert!(!line_of_sight(&empty, 0, 0, 0, 0, 100));
}

#[test]
fn a_slanted_line_is_checked_cell_by_cell() {
    let open = rows(&["    ", "    ", "    "]);
    assert!(line_of_sight(&open, 50, 50, 350, 250, 100));
    // The line from (0, 0) to (3, 2) runs over (1, 1) and (2, 1).
    let pillar = rows(&["    ", " +  ", "    "]);
    assert!(!line_of_sight(&pillar, 50, 50, 350, 250, 100));
    let other = rows(&["    ", "  + ", "    "]);
    assert!(!line_of_sight(&other, 50, 50, 350, 250, 100));
    let beside = rows(&["  + ", "    ", " +  "]);
    assert!(line_of_sight(&beside, 50, 50, 350, 250, 100));
}

#[test]
fn each_step_leaves_a_route_one_shorter() {
    let maze = rows(&[
        "+-------+",
        "|   |   |",
        "| + | + |",
        "| |   | |",
        "| +-+-+ |",
        "|       |",
        "+-------+",
    ]);
    // The only shortest way from (1, 1) to (7, 1) runs through the gap
    // below the inner wall: ten moves.
    assert_eq!(route(&maze, (150, 150), (750, 150)), Some(10));
    let first = next_step_bfs(&maze, 150, 150, 750, 150, 100).unwrap();
    assert_eq!(first, (250, 150));
    assert_eq!(route(&maze, (first.0 as i32, first.1 as i32), (750, 150)), Some(9));
}

#[test]
fn among_equal_routes_the_first_neighbour_in_order_wins() {
    let open = rows(&["+---+", "|   |", "|   |", "|   |", "+---+"]);
    // Right before left, then down before up.
    assert_eq!(next_step_bfs(&open, 150, 150, 250, 250, 100), Some((250, 150)));
    assert_eq!(next_step_bfs(&open, 350, 350, 250, 250, 100), Some((250, 350)));
    assert_eq!(next_step_bfs(&open, 150, 350, 250, 250, 100), Some((250, 350)));
    assert_eq!(next_step_bfs(&open, 350, 150, 250, 250, 100), Some((250, 150)));
    assert_eq!(next_step_bfs(&open, 250, 150, 250, 350, 100), Some((250, 250)));
}

#[test]
fn there_is_no_step_without_a_route() {
    let maze = divided();
    // Both points in one cell.
    assert_eq!(next_step_bfs(&maze, 110, 110, 190, 190, 100), None);
    // The start outside the maze.
    assert_eq!(next_step_bfs(&maze, -50, 150, 150, 150, 100), None);
    assert_eq!(next_step_bfs(&maze, 150, 950, 150, 150, 100), None);
    // The target in a wall, or outside.
    assert_eq!(next_step_bfs(&maze, 150, 150, 250, 150, 100), None);
    assert_eq!(next_step_bfs(&maze, 150, 150, 950, 150, 100), None);
    // The target walled in.
    let cut = rows(&["+---+", "| | |", "+---+"]);
    assert_eq!(next_step_bfs(&cut, 150, 150, 350, 150, 100), None);
    let empty: Maze = Vec::new();
    assert_eq!(next_step_bfs(&empty, 0, 0, 150, 150, 100), None);
}

#[test]
fn a_route_may_start_in_a_wall() {
    let maze = divided();
    // From inside the dividing wall the target is the next cell.
    assert_eq!(next_step_bfs(&maze, 250, 150, 350, 150, 100), Some((350, 150)));
    // From the border the only open neighbour lies below.
    assert_eq!(next_step_bfs(&maze, 150, 50, 350, 150, 100), Some((150, 150)));
}

#[test]
fn routes_cross_rows_of_different_length() {
    let maze = rows(&["   ", " ", "     "]);
    assert_eq!(route(&maze, (250, 50), (450, 250)), Some(8));
    assert_eq!(next_step_bfs(&maze, 250, 50, 450, 250, 100), Some((150, 50)));
}

#[test]
fn the_middle_of_a_cell_rounds_down() {
    let open = rows(&["  "]);
    assert_eq!(next_step_bfs(&open, 0, 0, 5, 0, 5), Some((7, 2)));
}
