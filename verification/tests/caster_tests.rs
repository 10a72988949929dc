use maze_raycaster::caster::{cast_ray, Intersect, MAX_STEPS, NO_HIT_DISTANCE};
use maze_raycaster::geometry::Vector2;
use maze_raycaster::maze::Maze;
use maze_raycaster::player::Player;

fn rows(lines: &[&str]) -> Maze {
    lines.iter().map(|l| l.chars().collect()).collect()
}

fn room() -> Maze {
    rows(&["+---+", "|   |", "|   |", "|   |", "+---+"])
}

fn viewer(x: i32, y: i32) -> Player {
    Player { pos: Vector2 { x, y }, a: 0, fov: 60 }
}

fn same(hit: &Intersect, distance: u64, impact: char, hit_x: i64, hit_y: i64, side: u8) {
    assert_eq!(hit.distance, distance);
    assert_eq!(hit.impact, impact);
    assert_eq!(hit.hit_x, hit_x);
    assert_eq!(hit.hit_y, hit_y);
    assert_eq!(hit.side, side);
}

fn missed(hit: &Intersect, x: i64, y: i64) {
    same(hit, 2000, ' ', x, y, 0);
}

#[test]
fn the_walk_has_its_limits() {
    assert_eq!(MAX_STEPS, 2000);
    assert_eq!(NO_HIT_DISTANCE, 2000);
}

#[test]
fn a_ray_from_the_middle_of_the_room_strikes_the_border() {
    // The viewer stands one and a half cells from the wall on its right.
    let hit = cast_ray(&room(), &viewer(250, 250), 1, 0, 100);
    same(&hit, 150, '|', 400, 250, 0);
}

#[test]
fn straight_rays_strike_the_near_side_of_the_wall() {
    let maze = room();
    let p = viewer(230, 260);
    same(&cast_ray(&maze, &p, 7, 0, 100), 170, '|', 400, 260, 0);
    same(&cast_ray(&maze, &p, -7, 0, 100), 130, '|', 100, 260, 0);
    same(&cast_ray(&maze, &p, 0, 3, 100), 140, '-', 230, 400, 1);
    same(&cast_ray(&maze, &p, 0, -3, 100), 160, '-', 230, 100, 1);
}

#[test]
fn the_length_of_a_straight_ray_does_not_depend_on_the_size_of_the_direction() {
    let maze = room();
    let p = viewer(250, 250);
    let unit = cast_ray(&maze, &p, 1, 0, 100);
    let long = cast_ray(&maze, &p, i32::MAX, 0, 100);
    assert_eq!(unit.distance, long.distance);
    assert_eq!(unit.hit_x, long.hit_x);
    let back = cast_ray(&maze, &p, i32::MIN, 0, 100);
    same(&back, 150, '|', 100, 250, 0);
}

#[test]
fn a_diagonal_ray_takes_the_nearer_crossing_and_y_on_a_tie() {
    // From the middle of a cell both crossings are equally near.
    let hit = cast_ray(&room(), &viewer(250, 250), 1, 1, 100);
    same(&hit, 212, '-', 400, 400, 1);
    let up = cast_ray(&room(), &viewer(250, 250), -1, -1, 100);
    same(&up, 212, '-', 100, 100, 1);
}

#[test]
fn a_slanted_ray_drifts_along_the_other_axis() {
    // Two steps along x for one along y, from (250, 250): x = 400 is
    // reached after 150 along x and 75 along y.
    let hit = cast_ray(&room(), &viewer(250, 250), 2, 1, 100);
    same(&hit, 167, '|', 400, 325, 0);
    let hit = cast_ray(&room(), &viewer(250, 250), 2, -1, 100);
    same(&hit, 167, '|', 400, 175, 0);
}

#[test]
fn nothing_is_struck_in_a_maze_without_walls() {
    let open = rows(&["     ", "  R  ", "     "]);
    for (dx, dy) in [(1, 0), (-1, 0), (0, 1), (0, -1), (3, 2), (-5, 7), (1, -9)] {
        missed(&cast_ray(&open, &viewer(250, 150), dx, dy, 100), 250, 150);
    }
}

#[test]
fn a_ray_without_direction_strikes_nothing() {
    missed(&cast_ray(&room(), &viewer(250, 250), 0, 0, 100), 250, 250);
}

#[test]
fn an_agents_cell_does_not_stop_a_ray() {
    let maze = rows(&["+-----+", "| R R |", "+-----+"]);
    let hit = cast_ray(&maze, &viewer(150, 150), 1, 0, 100);
    same(&hit, 450, '|', 600, 150, 0);
}

#[test]
fn a_collectibles_cell_stops_a_ray() {
    let maze = rows(&["+-----+", "|  C  |", "+-----+"]);
    let hit = cast_ray(&maze, &viewer(150, 150), 1, 0, 100);
    same(&hit, 150, 'C', 300, 150, 0);
}

#[test]
fn a_ray_that_leaves_the_maze_strikes_nothing() {
    let maze = rows(&["   ", " + ", "   "]);
    missed(&cast_ray(&maze, &viewer(50, 50), 1, 0, 100), 50, 50);
    missed(&cast_ray(&maze, &viewer(50, 50), -1, 0, 100), 50, 50);
    same(&cast_ray(&maze, &viewer(50, 150), 1, 0, 100), 50, '+', 100, 150, 0);
}

#[test]
fn a_ray_from_outside_strikes_only_the_first_cell_it_enters() {
    let maze = rows(&["+ ", "  "]);
    // From the left of the maze the ray enters cell (0, 0) first.
    same(&cast_ray(&maze, &viewer(-5, 50), 1, 0, 100), 5, '+', 0, 50, 0);
    // One row lower it enters open floor and then leaves the row.
    missed(&cast_ray(&maze, &viewer(-5, 150), 1, 0, 100), -5, 150);
    // From far away the first cell entered lies outside the maze.
    missed(&cast_ray(&maze, &viewer(-500, 50), 1, 0, 100), -500, 50);
}

#[test]
fn a_ray_in_an_empty_maze_strikes_nothing() {
    let maze: Maze = Vec::new();
    missed(&cast_ray(&maze, &viewer(10, 10), 1, 1, 100), 10, 10);
}

#[test]
fn a_ray_on_a_cell_boundary_counts_as_in_the_cell_after_it() {
    // x = 200 is the first coordinate of cell 2.
    let hit = cast_ray(&room(), &viewer(200, 250), 1, 0, 100);
    same(&hit, 200, '|', 400, 250, 0);
    let hit = cast_ray(&room(), &viewer(200, 250), -1, 0, 100);
    same(&hit, 100, '|', 100, 250, 0);
}

#[test]
fn cells_of_one_step_work() {
    let maze = rows(&["+---+", "|   |", "+---+"]);
    let hit = cast_ray(&maze, &viewer(1, 1), 1, 0, 1);
    same(&hit, 3, '|', 4, 1, 0);
}

#[test]
fn a_ray_gives_up_after_its_budget() {
    let long: Maze = vec![std::iter::repeat(' ').take(2100).chain(std::iter::once('|')).collect()];
    missed(&cast_ray(&long, &viewer(0, 0), 1, 0, 1), 0, 0);
    let near: Maze = vec![std::iter::repeat(' ').take(2000).chain(std::iter::once('|')).collect()];
    same(&cast_ray(&near, &viewer(0, 0), 1, 0, 1), 2000, '|', 2000, 0, 0);
    let far: Maze = vec![std::iter::repeat(' ').take(2001).chain(std::iter::once('|')).collect()];
    missed(&cast_ray(&far, &viewer(0, 0), 1, 0, 1), 0, 0);
}
