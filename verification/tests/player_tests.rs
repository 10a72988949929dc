use maze_raycaster::geometry::Vector2;
use maze_raycaster::maze::Maze;
use maze_raycaster::player::{
    can_move_to, clamp_to_coord, move_with_slide, process_events, Input, Player, MOVE_SPEED,
};
use maze_raycaster::trig::TrigTable;

fn rows(lines: &[&str]) -> Maze {
    lines.iter().map(|l| l.chars().collect()).collect()
}

fn room() -> Maze {
    rows(&["+---+", "|   |", "|   |", "|   |", "+---+"])
}

fn degrees() -> TrigTable {
    let scale = 16384.0f64;
    let mut cos = Vec::new();
    let mut sin = Vec::new();
    for k in 0..360 {
        let a = (k as f64).to_radians();
        cos.push((a.cos() * scale).round() as i32);
        sin.push((a.sin() * scale).round() as i32);
    }
    TrigTable { scale: 16384, cos, sin }
}

fn at(x: i32, y: i32) -> Vector2 {
    Vector2 { x, y }
}

fn still() -> Input {
    Input { forward: false, backward: false, right: false, left: false, turn: 0 }
}

#[test]
fn an_empty_maze_is_open_everywhere() {
    let maze: Maze = Vec::new();
    assert!(can_move_to(&maze, 0, 0, 100));
    assert!(can_move_to(&maze, -500, 12345, 100));
}

#[test]
fn only_open_cells_can_be_stood_on() {
    let maze = room();
    assert!(can_move_to(&maze, 150, 150, 100));
    assert!(can_move_to(&maze, 399, 100, 100));
    assert!(!can_move_to(&maze, 400, 100, 100));
    assert!(!can_move_to(&maze, 50, 50, 100));
    assert!(!can_move_to(&maze, 99, 150, 100));
    assert!(!can_move_to(&maze, -1, 150, 100));
    assert!(!can_move_to(&maze, 150, -1, 100));
    assert!(!can_move_to(&maze, 550, 150, 100));
    assert!(!can_move_to(&maze, 150, 550, 100));
    let marked = rows(&["R C"]);
    assert!(can_move_to(&marked, 50, 50, 100));
    assert!(can_move_to(&marked, 150, 50, 100));
    assert!(!can_move_to(&marked, 250, 50, 100));
    let gap = rows(&["   ", "", "   "]);
    assert!(!can_move_to(&gap, 50, 150, 100));
}

#[test]
fn a_free_move_is_taken_whole() {
    assert_eq!(move_with_slide(&room(), at(150, 150), at(160, 170), 100), at(160, 170));
}

#[test]
fn a_move_into_a_corner_stops() {
    // The corner of the room: wall to the left, wall above, pillar between.
    assert_eq!(move_with_slide(&room(), at(110, 110), at(95, 95), 100), at(110, 110));
    assert_eq!(move_with_slide(&room(), at(390, 390), at(405, 405), 100), at(390, 390));
}

#[test]
fn a_blocked_move_slides_along_the_open_axis() {
    // Into the left wall, moving down as well: only the way down is open.
    assert_eq!(move_with_slide(&room(), at(110, 150), at(95, 160), 100), at(110, 160));
    // Into the upper wall, moving right as well: only the way right is open.
    assert_eq!(move_with_slide(&room(), at(150, 110), at(160, 95), 100), at(160, 110));
}

#[test]
fn each_axis_is_tried_from_where_the_mover_stands() {
    // A lone pillar diagonally ahead: both axes are open by themselves.
    let maze = rows(&["   ", "   ", "  +"]);
    assert_eq!(move_with_slide(&maze, at(190, 190), at(210, 210), 100), at(210, 210));
}

#[test]
fn a_mover_in_a_wall_stays_there() {
    assert_eq!(move_with_slide(&room(), at(50, 50), at(60, 60), 100), at(50, 50));
    assert_eq!(move_with_slide(&room(), at(50, 150), at(120, 150), 100), at(120, 150));
}

#[test]
fn coordinates_are_clamped() {
    assert_eq!(clamp_to_coord(5), 5);
    assert_eq!(clamp_to_coord(i64::MAX), i32::MAX);
    assert_eq!(clamp_to_coord(i64::MIN), i32::MIN);
    assert_eq!(clamp_to_coord(2147483648), 2147483647);
    assert_eq!(clamp_to_coord(-2147483649), -2147483648);
}

#[test]
fn the_viewer_steps_along_its_line_of_sight() {
    let trig = degrees();
    let maze = room();
    assert_eq!(MOVE_SPEED, 10);
    let mut p = Player { pos: at(150, 150), a: 0, fov: 60 };
    process_events(&mut p, &Input { forward: true, ..still() }, &maze, 100, &trig);
    assert_eq!(p.pos, at(160, 150));
    assert_eq!(p.a, 0);
    process_events(&mut p, &Input { backward: true, ..still() }, &maze, 100, &trig);
    assert_eq!(p.pos, at(150, 150));
    process_events(&mut p, &Input { right: true, ..still() }, &maze, 100, &trig);
    assert_eq!(p.pos, at(150, 160));
    process_events(&mut p, &Input { left: true, ..still() }, &maze, 100, &trig);
    assert_eq!(p.pos, at(150, 150));
    process_events(&mut p, &Input { forward: true, backward: true, ..still() }, &maze, 100, &trig);
    assert_eq!(p.pos, at(150, 150));
    process_events(&mut p, &Input { forward: true, right: true, ..still() }, &maze, 100, &trig);
    assert_eq!(p.pos, at(160, 160));
}

#[test]
fn the_viewer_turns_before_it_steps() {
    let trig = degrees();
    let maze = room();
    let mut p = Player { pos: at(250, 250), a: 0, fov: 60 };
    process_events(&mut p, &Input { forward: true, turn: 90, ..still() }, &maze, 100, &trig);
    assert_eq!(p.a, 90);
    assert_eq!(p.pos, at(250, 260));
    process_events(&mut p, &Input { turn: -100, ..still() }, &maze, 100, &trig);
    assert_eq!(p.a, 350);
    assert_eq!(p.pos, at(250, 260));
    process_events(&mut p, &Input { turn: 370, ..still() }, &maze, 100, &trig);
    assert_eq!(p.a, 0);
    assert_eq!(p.fov, 60);
}

#[test]
fn the_viewer_stops_at_a_wall_and_slides_along_it() {
    let trig = degrees();
    let maze = room();
    let mut p = Player { pos: at(395, 250), a: 0, fov: 60 };
    process_events(&mut p, &Input { forward: true, ..still() }, &maze, 100, &trig);
    assert_eq!(p.pos, at(395, 250));
    // At 45 degrees each component of the step is 7 long.
    let mut p = Player { pos: at(395, 250), a: 45, fov: 60 };
    process_events(&mut p, &Input { forward: true, ..still() }, &maze, 100, &trig);
    assert_eq!(p.pos, at(395, 257));
}

#[test]
fn steps_at_the_edge_of_the_world_do_not_wrap() {
    let trig = degrees();
    let maze: Maze = Vec::new();
    let mut p = Player { pos: at(i32::MAX - 3, i32::MIN + 3), a: 0, fov: 60 };
    process_events(&mut p, &Input { forward: true, left: true, ..still() }, &maze, 100, &trig);
    assert_eq!(p.pos, at(i32::MAX, i32::MIN));
}
