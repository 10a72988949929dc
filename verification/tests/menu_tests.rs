use maze_raycaster::framebuffer::{Color, Framebuffer};
use maze_raycaster::game::{frame_side, player_escaped, window_size};
use maze_raycaster::geometry::Vector2;
use maze_raycaster::maze::Maze;
use maze_raycaster::menu::{
    draw_closing_screen, draw_menu_background, menu_step, Menu, MenuAction, MenuKeys, MenuState,
};
use maze_raycaster::player::Player;
use maze_raycaster::textures::{ImageBuf, TextureAtlas};

fn none() -> MenuKeys {
    MenuKeys { down: false, up: false, enter: false, escape: false, quit: false }
}

fn levels() -> Menu {
    Menu { state: MenuState::LevelSelect, main_selection: 0, level_selection: 1 }
}

#[test]
fn the_menu_opens_on_play() {
    let m = Menu::new();
    assert_eq!(m, Menu { state: MenuState::Main, main_selection: 0, level_selection: 1 });
}

#[test]
fn the_first_page_moves_between_two_choices() {
    let mut m = Menu::new();
    assert_eq!(menu_step(&mut m, &none()), None);
    assert_eq!(m, Menu::new());
    assert_eq!(menu_step(&mut m, &MenuKeys { down: true, ..none() }), None);
    assert_eq!(m.main_selection, 1);
    assert_eq!(menu_step(&mut m, &MenuKeys { down: true, ..none() }), None);
    assert_eq!(m.main_selection, 0);
    assert_eq!(menu_step(&mut m, &MenuKeys { up: true, ..none() }), None);
    assert_eq!(m.main_selection, 1);
    assert_eq!(menu_step(&mut m, &MenuKeys { up: true, down: true, ..none() }), None);
    assert_eq!(m.main_selection, 1);
    assert_eq!(menu_step(&mut m, &MenuKeys { escape: true, ..none() }), None);
    assert_eq!(m.state, MenuState::Main);
}

#[test]
fn enter_plays_or_leaves() {
    let mut m = Menu::new();
    assert_eq!(menu_step(&mut m, &MenuKeys { enter: true, ..none() }), None);
    assert_eq!(m.state, MenuState::LevelSelect);
    let mut m = Menu::new();
    assert_eq!(menu_step(&mut m, &MenuKeys { down: true, enter: true, ..none() }), Some(MenuAction::Quit));
    assert_eq!(m, Menu { state: MenuState::Main, main_selection: 1, level_selection: 1 });
    let mut m = Menu::new();
    assert_eq!(menu_step(&mut m, &MenuKeys { quit: true, ..none() }), Some(MenuAction::Quit));
    // Enter and quit at once: the page turns, and the menu ends.
    let mut m = Menu::new();
    assert_eq!(menu_step(&mut m, &MenuKeys { enter: true, quit: true, ..none() }), Some(MenuAction::Quit));
    assert_eq!(m.state, MenuState::LevelSelect);
}

#[test]
fn the_second_page_goes_round_the_levels() {
    let mut m = levels();
    let down = MenuKeys { down: true, ..none() };
    let up = MenuKeys { up: true, ..none() };
    assert_eq!(menu_step(&mut m, &down), None);
    assert_eq!(m.level_selection, 2);
    assert_eq!(menu_step(&mut m, &down), None);
    assert_eq!(m.level_selection, 3);
    assert_eq!(menu_step(&mut m, &down), None);
    assert_eq!(m.level_selection, 1);
    assert_eq!(menu_step(&mut m, &up), None);
    assert_eq!(m.level_selection, 3);
    assert_eq!(menu_step(&mut m, &up), None);
    assert_eq!(m.level_selection, 2);
    assert_eq!(menu_step(&mut m, &MenuKeys { enter: true, ..none() }), Some(MenuAction::StartLevel(2)));
    assert_eq!(menu_step(&mut m, &MenuKeys { down: true, enter: true, quit: true, ..none() }), Some(MenuAction::StartLevel(3)));
    assert_eq!(menu_step(&mut m, &MenuKeys { escape: true, ..none() }), None);
    assert_eq!(m, Menu { state: MenuState::Main, main_selection: 0, level_selection: 3 });
    let mut m = levels();
    assert_eq!(menu_step(&mut m, &MenuKeys { escape: true, quit: true, ..none() }), Some(MenuAction::Quit));
    assert_eq!(m.state, MenuState::Main);
    let mut odd = Menu { state: MenuState::LevelSelect, main_selection: 0, level_selection: i32::MAX };
    assert_eq!(menu_step(&mut odd, &down), None);
    assert_eq!(odd.level_selection, 1);
    let mut low = Menu { state: MenuState::LevelSelect, main_selection: 0, level_selection: i32::MIN };
    assert_eq!(menu_step(&mut low, &up), None);
    assert_eq!(low.level_selection, 3);
    let mut big = Menu { state: MenuState::Main, main_selection: usize::MAX, level_selection: 1 };
    assert_eq!(menu_step(&mut big, &down), None);
    assert_eq!(big.main_selection, (usize::MAX % 2 + 1) % 2);
}

#[test]
fn the_background_falls_back_to_a_gradient() {
    let mut fb = Framebuffer::new(4, 4);
    draw_menu_background(&mut fb, &TextureAtlas::empty());
    for x in 0..4 {
        assert_eq!(fb.get_pixel(x, 0), Some(Color { r: 30, g: 20, b: 10, a: 255 }));
        assert_eq!(fb.get_pixel(x, 2), Some(Color { r: 20, g: 15, b: 10, a: 255 }));
        assert_eq!(fb.get_pixel(x, 3), Some(Color { r: 15, g: 12, b: 10, a: 255 }));
    }
}

#[test]
fn the_picture_is_fitted_into_the_middle() {
    let mut atlas = TextureAtlas::empty();
    atlas.menu = Some(ImageBuf {
        w: 2,
        h: 1,
        data: vec![10, 0, 0, 255, 20, 0, 0, 255],
    });
    let mut fb = Framebuffer::new(6, 5);
    draw_menu_background(&mut fb, &atlas);
    let dark = Color { r: 8, g: 8, b: 16, a: 255 };
    let left = Color { r: 10, g: 0, b: 0, a: 255 };
    let right = Color { r: 20, g: 0, b: 0, a: 255 };
    // Twice as wide as high: 6 by 3 pixels, one row free above and below.
    for x in 0..6 {
        assert_eq!(fb.get_pixel(x, 0), Some(dark));
        assert_eq!(fb.get_pixel(x, 4), Some(dark));
    }
    for y in 1..4 {
        assert_eq!(fb.get_pixel(0, y), Some(left));
        assert_eq!(fb.get_pixel(2, y), Some(left));
        assert_eq!(fb.get_pixel(3, y), Some(right));
        assert_eq!(fb.get_pixel(4, y), Some(right));
        // The last column lies on the picture's end, which is its start.
        assert_eq!(fb.get_pixel(5, y), Some(left));
    }
    atlas.menu = Some(ImageBuf { w: 0, h: 1, data: vec![1, 2, 3, 4] });
    draw_menu_background(&mut fb, &atlas);
    assert!(fb.color_buffer.iter().all(|c| *c == dark));
}

#[test]
fn the_closing_picture_is_stretched_over_the_frame() {
    let mut atlas = TextureAtlas::empty();
    atlas.game_over = Some(ImageBuf {
        w: 2,
        h: 2,
        data: vec![1, 0, 0, 255, 2, 0, 0, 255, 3, 0, 0, 255, 4, 0, 0, 255],
    });
    let mut fb = Framebuffer::new(4, 2);
    draw_closing_screen(&mut fb, &atlas);
    let reds: Vec<u8> = fb.color_buffer.iter().map(|c| c.r).collect();
    assert_eq!(reds, vec![1, 1, 2, 2, 3, 3, 4, 4]);
    assert!(fb.color_buffer.iter().all(|c| c.g == 0 && c.b == 0 && c.a == 255));
    let mut none = Framebuffer::new(0, 3);
    draw_closing_screen(&mut none, &atlas);
    assert!(none.color_buffer.is_empty());
}

#[test]
fn without_a_closing_picture_the_frame_stays() {
    let mut fb = Framebuffer::new(3, 3);
    let mark = Color { r: 9, g: 8, b: 7, a: 6 };
    fb.set_pixel_color(1, 1, mark);
    let before = fb.color_buffer.clone();
    draw_closing_screen(&mut fb, &TextureAtlas::empty());
    assert_eq!(fb.color_buffer, before);
}

#[test]
fn the_window_has_the_size_asked_for_if_large_enough() {
    assert_eq!(window_size(Some(800), Some(600)), (800, 600));
    assert_eq!(window_size(Some(201), Some(201)), (201, 201));
    assert_eq!(window_size(Some(200), Some(600)), (1300, 900));
    assert_eq!(window_size(Some(800), Some(200)), (1300, 900));
    assert_eq!(window_size(Some(-800), Some(600)), (1300, 900));
    assert_eq!(window_size(None, Some(600)), (1300, 900));
    assert_eq!(window_size(Some(800), None), (1300, 900));
    assert_eq!(window_size(None, None), (1300, 900));
    assert_eq!(frame_side(1300, 2), 650);
    assert_eq!(frame_side(901, 2), 450);
    assert_eq!(frame_side(5, 7), 0);
    assert_eq!(frame_side(-5, 2), 0);
    assert_eq!(frame_side(i32::MAX, 1), 2147483647);
}

#[test]
fn the_viewer_gets_out_through_an_open_door() {
    let maze: Maze = vec!["+G+".chars().collect(), "| |".chars().collect()];
    let at = |x: i32, y: i32| Player { pos: Vector2 { x, y }, a: 0, fov: 60 };
    assert!(player_escaped(&maze, &at(150, 50), 100, true));
    assert!(!player_escaped(&maze, &at(150, 50), 100, false));
    assert!(!player_escaped(&maze, &at(150, 150), 100, true));
    assert!(!player_escaped(&maze, &at(50, 50), 100, true));
    assert!(!player_escaped(&maze, &at(150, -50), 100, true));
    assert!(!player_escaped(&maze, &at(-150, 50), 100, true));
    assert!(!player_escaped(&Vec::new(), &at(150, 50), 100, true));
}
