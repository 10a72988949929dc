use maze_raycaster::framebuffer::{Color, Framebuffer};
use maze_raycaster::geometry::Vector2;
use maze_raycaster::maze::Maze;
use maze_raycaster::minimap::{
    color_of_symbol, fits, new_discovered, render_minimap, reveal_around, REVEAL_RADIUS,
};
use maze_raycaster::player::Player;
use maze_raycaster::sprite::NPC;

const BLACK: Color = Color { r: 0, g: 0, b: 0, a: 255 };
const BACKDROP: Color = Color { r: 8, g: 8, b: 16, a: 200 };
const BORDER: Color = Color { r: 220, g: 220, b: 220, a: 200 };
const FOG: Color = Color { r: 10, g: 10, b: 20, a: 220 };
const LINE: Color = Color { r: 20, g: 20, b: 30, a: 120 };
const FLOOR: Color = Color { r: 170, g: 170, b: 180, a: 200 };
const WALL: Color = Color { r: 32, g: 32, b: 48, a: 255 };
const AGENT: Color = Color { r: 255, g: 0, b: 0, a: 255 };
const VIEWER: Color = Color { r: 135, g: 206, b: 235, a: 255 };

fn rows(lines: &[&str]) -> Maze {
    lines.iter().map(|l| l.chars().collect()).collect()
}

fn room() -> Maze {
    rows(&["+---+", "|   |", "|   |", "|   |", "+---+"])
}

fn viewer(x: i32, y: i32) -> Player {
    Player { pos: Vector2 { x, y }, a: 0, fov: 60 }
}

fn covers(later: &Vec<Vec<bool>>, earlier: &Vec<Vec<bool>>) -> bool {
    later.len() == earlier.len()
        && later.iter().zip(earlier).all(|(l, e)| {
            l.len() == e.len() && l.iter().zip(e).all(|(a, b)| *a || !*b)
        })
}

#[test]
fn nothing_is_discovered_at_first() {
    let maze = rows(&["+--", "", "| R  g"]);
    let d = new_discovered(&maze);
    assert_eq!(d, vec![vec![false; 3], vec![], vec![false; 6]]);
    assert!(fits(&d, &maze));
    assert!(!fits(&d, &room()));
    assert!(!fits(&vec![vec![false; 3], vec![], vec![false; 5]], &maze));
    assert!(fits(&Vec::new(), &Vec::new()));
    assert_eq!(REVEAL_RADIUS, 2);
}

#[test]
fn the_cells_around_the_viewer_are_revealed() {
    let mut d = vec![vec![false; 8]; 7];
    reveal_around(&mut d, 3, 3);
    for j in 0..7usize {
        for i in 0..8usize {
            let near = (1..=5).contains(&i) && (1..=5).contains(&j);
            assert_eq!(d[j][i], near);
        }
    }
}

#[test]
fn revealing_at_the_edge_stays_in_the_grid() {
    let mut d = vec![vec![false; 3], vec![false; 1], vec![], vec![false; 6]];
    reveal_around(&mut d, 0, 0);
    assert_eq!(d, vec![vec![true; 3], vec![true], vec![], vec![false; 6]]);
    reveal_around(&mut d, 7, 5);
    assert_eq!(d[3], vec![false, false, false, false, false, true]);
    let before = d.clone();
    reveal_around(&mut d, -3, 0);
    reveal_around(&mut d, 0, -3);
    reveal_around(&mut d, 9, 3);
    reveal_around(&mut d, i64::MIN, i64::MAX);
    reveal_around(&mut d, i64::MAX, i64::MIN);
    assert_eq!(d, before);
    reveal_around(&mut d, -2, 1);
    assert!(d[3][0]);
    let mut none: Vec<Vec<bool>> = Vec::new();
    reveal_around(&mut none, 0, 0);
    assert!(none.is_empty());
}

#[test]
fn what_is_discovered_stays_discovered() {
    let maze = rows(&["          ", "          ", "          ", "      ", "          ", "          "]);
    let mut d = new_discovered(&maze);
    let mut fb = Framebuffer::new(8, 8);
    let path = [(50, 50), (950, 550), (450, 250), (-700, 300), (50, 550), (5000, 5000), (950, 50)];
    let mut seen = 0;
    for (x, y) in path {
        let before = d.clone();
        render_minimap(&mut fb, &maze, 1, &viewer(x, y), 0, 0, 100, &Vec::new(), &mut d);
        assert!(covers(&d, &before));
        let now = d.iter().flatten().filter(|f| **f).count();
        assert!(now >= seen);
        seen = now;
    }
    assert!(d[0][0] && d[5][9] && d[2][4] && d[0][9] && d[5][0]);
    assert!(!d[5][4]);
}

#[test]
fn flags_that_do_not_fit_are_replaced() {
    let maze = room();
    let mut d = vec![vec![true; 9]; 2];
    let mut fb = Framebuffer::new(8, 8);
    render_minimap(&mut fb, &maze, 1, &viewer(50, 50), 0, 0, 100, &Vec::new(), &mut d);
    assert!(fits(&d, &maze));
    for j in 0..5usize {
        for i in 0..5usize {
            assert_eq!(d[j][i], i <= 2 && j <= 2);
        }
    }
}

#[test]
fn a_maze_without_rows_has_no_map() {
    let maze: Maze = Vec::new();
    let mut d = vec![vec![false, true]];
    let mut fb = Framebuffer::new(30, 30);
    render_minimap(&mut fb, &maze, 4, &viewer(50, 50), 10, 10, 100, &vec![NPC::new(50, 50, 45)], &mut d);
    assert!(fb.color_buffer.iter().all(|c| *c == BLACK));
    assert_eq!(d, vec![vec![false, true]]);
}

#[test]
fn the_map_shows_backdrop_cells_and_markers() {
    let maze = room();
    let mut d = new_discovered(&maze);
    let mut fb = Framebuffer::new(64, 64);
    let npcs = vec![NPC::new(150, 150, 45)];
    render_minimap(&mut fb, &maze, 4, &viewer(250, 250), 10, 10, 100, &npcs, &mut d);
    let at = |x: u32, y: u32| fb.get_pixel(x, y).unwrap();
    // The backdrop reaches 6 pixels round the 20 by 20 pixels of cells.
    assert_eq!(at(3, 3), BLACK);
    assert_eq!(at(4, 4), BORDER);
    assert_eq!(at(35, 4), BORDER);
    assert_eq!(at(36, 4), BLACK);
    assert_eq!(at(4, 35), BORDER);
    assert_eq!(at(4, 36), BLACK);
    assert_eq!(at(5, 5), BACKDROP);
    assert_eq!(at(35, 35), BACKDROP);
    assert_eq!(at(35, 5), BACKDROP);
    assert_eq!(at(36, 36), BLACK);
    assert_eq!(at(9, 9), BACKDROP);
    assert_eq!(at(30, 30), BACKDROP);
    // Cells: the pillar in the corner, with its lines right and below.
    assert_eq!(at(10, 10), WALL);
    assert_eq!(at(12, 12), WALL);
    assert_eq!(at(13, 10), LINE);
    assert_eq!(at(10, 13), LINE);
    assert_eq!(at(13, 13), LINE);
    assert_eq!(at(26, 26), WALL);
    assert_eq!(at(29, 29), LINE);
    // Open floor next to the markers.
    assert_eq!(at(14, 14), FLOOR);
    assert_eq!(at(24, 24), FLOOR);
    assert_eq!(at(25, 24), LINE);
    // The agent at (1.5, 1.5) cells and the viewer at (2.5, 2.5).
    for (x, y) in [(15, 15), (18, 15), (15, 18), (18, 18), (16, 17)] {
        assert_eq!(at(x, y), AGENT);
    }
    for (x, y) in [(19, 19), (22, 19), (19, 22), (22, 22), (20, 21)] {
        assert_eq!(at(x, y), VIEWER);
    }
    assert_eq!(at(23, 23), FLOOR);
    assert_eq!(at(18, 19), FLOOR);
    assert_eq!(at(19, 18), FLOOR);
    assert_eq!(fb.current_color, Color { r: 255, g: 255, b: 255, a: 255 });
    assert!(d.iter().flatten().all(|f| *f));
}

#[test]
fn undiscovered_cells_lie_in_fog() {
    let maze = rows(&["  R     "]);
    let mut d = new_discovered(&maze);
    let mut fb = Framebuffer::new(40, 10);
    let npcs = vec![NPC::new(250, 50, 45), NPC::new(650, 50, 45)];
    render_minimap(&mut fb, &maze, 3, &viewer(50, 50), 6, 6, 100, &npcs, &mut d);
    assert_eq!(d, vec![vec![true, true, true, false, false, false, false, false]]);
    let at = |x: u32, y: u32| fb.get_pixel(x, y).unwrap();
    assert_eq!(at(9, 6), FLOOR);
    assert_eq!(at(12, 6), Color { r: 180, g: 100, b: 100, a: 255 });
    assert_eq!(at(15, 6), FOG);
    assert_eq!(at(17, 8), FOG);
    assert_eq!(at(29, 8), FOG);
    assert_eq!(at(30, 8), BACKDROP);
    // The agent in the discovered cell shows, the one in the fog does not.
    assert_eq!(at(13, 7), AGENT);
    assert_eq!(at(25, 7), FOG);
    assert_eq!(at(7, 7), VIEWER);
    let mut all = Framebuffer::new(40, 10);
    render_minimap(&mut all, &maze, 3, &viewer(750, 50), 6, 6, 100, &npcs, &mut d);
    assert_eq!(all.get_pixel(25, 7), Some(AGENT));
    assert_eq!(all.get_pixel(28, 7), Some(VIEWER));
    assert!(d[0][0] && d[0][5] && d[0][7] && !d[0][3] && !d[0][4]);
}

#[test]
fn the_map_is_cut_off_at_the_frame() {
    let maze = room();
    let mut d = new_discovered(&maze);
    let mut fb = Framebuffer::new(12, 12);
    render_minimap(&mut fb, &maze, 4, &viewer(250, 250), 0, 0, 100, &Vec::new(), &mut d);
    assert_eq!(fb.get_pixel(0, 0), Some(WALL));
    assert_eq!(fb.get_pixel(7, 7), Some(LINE));
    assert_eq!(fb.get_pixel(8, 8), Some(FLOOR));
    assert_eq!(fb.get_pixel(9, 9), Some(VIEWER));
    assert_eq!(fb.get_pixel(11, 11), Some(VIEWER));
    let mut far = Framebuffer::new(12, 12);
    render_minimap(&mut far, &maze, usize::MAX, &viewer(250, 250), usize::MAX, usize::MAX, 1, &vec![NPC::new(i32::MIN, i32::MIN, 1)], &mut d);
    assert!(far.color_buffer.iter().all(|c| *c == BLACK));
    let mut flat = Framebuffer::new(12, 12);
    render_minimap(&mut flat, &maze, 0, &viewer(250, 250), 3, 3, 100, &Vec::new(), &mut d);
    assert_eq!(flat.get_pixel(0, 0), Some(BACKDROP));
    assert_eq!(flat.get_pixel(8, 8), Some(BACKDROP));
    assert_eq!(flat.get_pixel(9, 9), Some(BLACK));
    assert_eq!(flat.get_pixel(3, 3), Some(VIEWER));
}

#[test]
fn symbols_have_their_colours_on_the_map() {
    assert_eq!(color_of_symbol(' '), FLOOR);
    assert_eq!(color_of_symbol('+'), WALL);
    assert_eq!(color_of_symbol('|'), WALL);
    assert_eq!(color_of_symbol('-'), WALL);
    assert_eq!(color_of_symbol('g'), Color { r: 80, g: 160, b: 80, a: 255 });
    assert_eq!(color_of_symbol('R'), Color { r: 180, g: 100, b: 100, a: 255 });
    assert_eq!(color_of_symbol('C'), Color { r: 140, g: 140, b: 140, a: 200 });
    assert_eq!(color_of_symbol('G'), Color { r: 140, g: 140, b: 140, a: 200 });
}
