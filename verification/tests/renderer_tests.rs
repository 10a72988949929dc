use maze_raycaster::framebuffer::{Color, Framebuffer};
use maze_raycaster::geometry::Vector2;
use maze_raycaster::maze::Maze;
use maze_raycaster::player::Player;
use maze_raycaster::renderer::{
    cell_to_color, draw_cell, render_maze, render_npcs, render_world, COIN_HEIGHT,
    DEPTH_TOLERANCE, WALL_HEIGHT,
};
use maze_raycaster::sprite::{Coin, NPC};
use maze_raycaster::textures::{ImageBuf, TextureAtlas};
use maze_raycaster::trig::TrigTable;

const BLACK: Color = Color { r: 0, g: 0, b: 0, a: 255 };
const FLOOR: Color = Color { r: 90, g: 30, b: 30, a: 255 };
const EVEN: Color = Color { r: 200, g: 180, b: 160, a: 255 };
const ODD: Color = Color { r: 140, g: 120, b: 100, a: 255 };
const GREEN: Color = Color { r: 0, g: 255, b: 0, a: 255 };
const YELLOW: Color = Color { r: 250, g: 250, b: 0, a: 255 };
const RED: Color = Color { r: 200, g: 30, b: 30, a: 255 };

fn rows(lines: &[&str]) -> Maze {
    lines.iter().map(|l| l.chars().collect()).collect()
}

fn room() -> Maze {
    rows(&["+---+", "|   |", "|   |", "|   |", "+---+"])
}

fn degrees() -> TrigTable {
    let scale = 16384.0f64;
    let mut cos = Vec::new();
    let mut sin = Vec::new();
    for k in 0..360 {
        let a = (k as f64).to_radians();
        cos.push((a.cos() * scale).round() as i32);
        sin.push((a.sin() * scale).round() as i32);
    }
    TrigTable { scale: 16384, cos, sin }
}

fn viewer(fov: u32) -> Player {
    Player { pos: Vector2 { x: 250, y: 250 }, a: 0, fov }
}

fn sprites() -> TextureAtlas {
    let mut atlas = TextureAtlas::empty();
    atlas.npc = Some(ImageBuf { w: 1, h: 1, data: vec![0, 255, 0, 255] });
    let mut sheet = Vec::new();
    for _ in 0..12 {
        sheet.extend_from_slice(&[250, 250, 0, 255]);
    }
    atlas.coin = Some(ImageBuf { w: 12, h: 1, data: sheet });
    atlas
}

fn frame(
    width: u32,
    height: u32,
    player: &Player,
    textures: &TextureAtlas,
    npcs: &Vec<NPC>,
    coins: &Vec<Coin>,
    column_step: usize,
) -> Framebuffer {
    let mut fb = Framebuffer::new(width, height);
    render_world(&mut fb, &room(), 100, player, textures, npcs, coins, column_step, false, &degrees());
    fb
}

fn column(fb: &Framebuffer, x: u32) -> Vec<Color> {
    (0..fb.height).map(|y| fb.get_pixel(x, y).unwrap()).collect()
}

#[test]
fn the_heights_have_their_values() {
    assert_eq!(WALL_HEIGHT, 70);
    assert_eq!(COIN_HEIGHT, 60);
    assert_eq!(DEPTH_TOLERANCE, 1);
}

#[test]
fn a_column_shows_sky_wall_and_floor() {
    // Without a field of view every ray runs straight ahead, to the wall
    // 150 away: the wall is 4 rows tall in a frame of 20.
    let fb = frame(4, 20, &viewer(0), &TextureAtlas::empty(), &Vec::new(), &Vec::new(), 1);
    let col = column(&fb, 0);
    assert_eq!(col[0], Color { r: 80, g: 160, b: 240, a: 255 });
    assert_eq!(col[5], Color { r: 120, g: 180, b: 240, a: 255 });
    assert_eq!(col[7], Color { r: 135, g: 187, b: 240, a: 255 });
    assert_eq!(col[8], EVEN);
    assert_eq!(col[9], ODD);
    assert_eq!(col[10], EVEN);
    assert_eq!(col[11], ODD);
    assert_eq!(col[12], EVEN);
    for y in 13..20 {
        assert_eq!(col[y], FLOOR);
    }
    for x in 1..4 {
        assert_eq!(column(&fb, x), col);
    }
    assert_eq!(fb.current_color, Color { r: 255, g: 255, b: 255, a: 255 });
    assert_eq!(fb.background_color, BLACK);
}

#[test]
fn every_pixel_of_the_frame_is_drawn() {
    let mut fb = Framebuffer::new(33, 17);
    let marker = Color { r: 1, g: 2, b: 3, a: 4 };
    fb.set_background_color(marker);
    fb.clear();
    render_world(
        &mut fb,
        &room(),
        100,
        &viewer(60),
        &TextureAtlas::empty(),
        &Vec::new(),
        &Vec::new(),
        4,
        false,
        &degrees(),
    );
    assert!(fb.color_buffer.iter().all(|c| *c != marker));
    assert_eq!(fb.color_buffer.len(), 33 * 17);
}

#[test]
fn columns_of_one_group_are_alike() {
    let fb = frame(60, 20, &viewer(60), &TextureAtlas::empty(), &Vec::new(), &Vec::new(), 4);
    for group in 0..15 {
        let first = column(&fb, group * 4);
        for x in 1..4 {
            assert_eq!(column(&fb, group * 4 + x), first);
        }
    }
    // A step of 0 counts as 1.
    let one = frame(60, 20, &viewer(60), &TextureAtlas::empty(), &Vec::new(), &Vec::new(), 1);
    let zero = frame(60, 20, &viewer(60), &TextureAtlas::empty(), &Vec::new(), &Vec::new(), 0);
    assert_eq!(one.color_buffer, zero.color_buffer);
    // A step wider than the frame leaves one ray for all of it.
    let wide = frame(60, 20, &viewer(60), &TextureAtlas::empty(), &Vec::new(), &Vec::new(), usize::MAX);
    assert_eq!(column(&wide, 59), column(&wide, 0));
    assert_eq!(column(&wide, 0), column(&one, 0));
}

#[test]
fn a_wall_is_taller_from_near() {
    let mut near = viewer(0);
    near.pos = Vector2 { x: 350, y: 250 };
    let fb = frame(1, 20, &near, &TextureAtlas::empty(), &Vec::new(), &Vec::new(), 1);
    // 50 away the wall spans rows 3 to 17.
    let col = column(&fb, 0);
    assert_eq!(col[2], Color { r: 95, g: 167, b: 240, a: 255 });
    assert!(col[3] == EVEN || col[3] == ODD);
    assert!(col[17] == EVEN || col[17] == ODD);
    assert_eq!(col[18], FLOOR);
    // Right at the wall it fills the column.
    near.pos = Vector2 { x: 399, y: 250 };
    let fb = frame(1, 20, &near, &TextureAtlas::empty(), &Vec::new(), &Vec::new(), 1);
    assert!(column(&fb, 0).iter().all(|c| *c == EVEN || *c == ODD));
}

#[test]
fn a_sprite_before_the_wall_is_drawn() {
    let npcs = vec![NPC::new(350, 250, 45)];
    let with = frame(60, 20, &viewer(60), &sprites(), &npcs, &Vec::new(), 1);
    let without = frame(60, 20, &viewer(60), &sprites(), &Vec::new(), &Vec::new(), 1);
    // 100 away the sprite spans rows 6 to 13 and 3 columns, round the
    // middle of the frame.
    for x in 0..60 {
        for y in 0..20 {
            let inside = (29..=31).contains(&x) && (6..=13).contains(&y);
            let expected = if inside { Some(GREEN) } else { without.get_pixel(x, y) };
            assert_eq!(with.get_pixel(x, y), expected);
        }
    }
}

#[test]
fn a_sprite_behind_the_wall_is_hidden() {
    let behind = vec![NPC::new(450, 250, 45)];
    let with = frame(60, 20, &viewer(60), &sprites(), &behind, &Vec::new(), 1);
    let without = frame(60, 20, &viewer(60), &sprites(), &Vec::new(), &Vec::new(), 1);
    assert_eq!(with.color_buffer, without.color_buffer);
    // At the wall's own distance the sprite is hidden too; one step
    // nearer than that it shows.
    let at = frame(60, 20, &viewer(60), &sprites(), &vec![NPC::new(400, 250, 45)], &Vec::new(), 1);
    assert_eq!(at.color_buffer, without.color_buffer);
    let near = frame(60, 20, &viewer(60), &sprites(), &vec![NPC::new(399, 250, 45)], &Vec::new(), 1);
    assert_eq!(near.get_pixel(30, 10), Some(GREEN));
}

#[test]
fn a_sprite_outside_the_field_of_view_is_not_drawn() {
    let without = frame(60, 20, &viewer(60), &sprites(), &Vec::new(), &Vec::new(), 1);
    for pos in [(150, 250), (250, 350), (250, 150), (300, 300)] {
        let npcs = vec![NPC::new(pos.0, pos.1, 45)];
        let with = frame(60, 20, &viewer(60), &sprites(), &npcs, &Vec::new(), 1);
        assert_eq!(with.color_buffer, without.color_buffer);
    }
    // At the edge of the field of view it still shows.
    let edge = vec![NPC::new(337, 300, 45)];
    let with = frame(60, 20, &viewer(60), &sprites(), &edge, &Vec::new(), 1);
    assert_ne!(with.color_buffer, without.color_buffer);
}

#[test]
fn a_clear_sprite_pixel_is_not_drawn() {
    let mut atlas = sprites();
    atlas.npc = Some(ImageBuf { w: 1, h: 1, data: vec![0, 255, 0, 16] });
    let npcs = vec![NPC::new(350, 250, 45)];
    let with = frame(60, 20, &viewer(60), &atlas, &npcs, &Vec::new(), 1);
    let without = frame(60, 20, &viewer(60), &atlas, &Vec::new(), &Vec::new(), 1);
    assert_eq!(with.color_buffer, without.color_buffer);
    atlas.npc = Some(ImageBuf { w: 1, h: 1, data: vec![0, 255, 0, 17] });
    let with = frame(60, 20, &viewer(60), &atlas, &npcs, &Vec::new(), 1);
    assert_eq!(with.get_pixel(30, 10), Some(Color { r: 0, g: 255, b: 0, a: 17 }));
    // Without a sprite to sample nothing is drawn either.
    let bare = frame(60, 20, &viewer(60), &TextureAtlas::empty(), &npcs, &Vec::new(), 1);
    let none = frame(60, 20, &viewer(60), &TextureAtlas::empty(), &Vec::new(), &Vec::new(), 1);
    assert_eq!(bare.color_buffer, none.color_buffer);
}

#[test]
fn a_collected_collectible_is_never_drawn() {
    let collected = vec![Coin { pos: Vector2 { x: 350, y: 250 }, collected: true, animation_time: 0 }];
    let with = frame(60, 20, &viewer(60), &sprites(), &Vec::new(), &collected, 1);
    let without = frame(60, 20, &viewer(60), &sprites(), &Vec::new(), &Vec::new(), 1);
    assert_eq!(with.color_buffer, without.color_buffer);
}

#[test]
fn a_collectible_is_drawn_over_agents() {
    let coins = vec![Coin::new(350, 250)];
    let npcs = vec![NPC::new(350, 250, 45)];
    let fb = frame(60, 20, &viewer(60), &sprites(), &npcs, &coins, 1);
    // 100 away the collectible spans rows 7 to 13 and 5 columns.
    for x in 28..=32 {
        for y in 7..=13 {
            assert_eq!(fb.get_pixel(x, y), Some(YELLOW));
        }
    }
    assert_eq!(fb.get_pixel(30, 6), Some(GREEN));
    assert_ne!(fb.get_pixel(27, 10), Some(YELLOW));
    assert_ne!(fb.get_pixel(33, 10), Some(YELLOW));
    assert_ne!(fb.get_pixel(30, 14), Some(YELLOW));
}

#[test]
fn a_collectible_floats_with_its_phase() {
    // At phase 113 it hangs 8 rows lower.
    let coins = vec![Coin { pos: Vector2 { x: 350, y: 250 }, collected: false, animation_time: 113 }];
    let fb = frame(60, 40, &viewer(60), &sprites(), &Vec::new(), &coins, 1);
    let rest = vec![Coin::new(350, 250)];
    let still = frame(60, 40, &viewer(60), &sprites(), &Vec::new(), &rest, 1);
    assert_eq!(still.get_pixel(30, 14), Some(YELLOW));
    assert_eq!(still.get_pixel(30, 26), Some(YELLOW));
    assert_ne!(still.get_pixel(30, 27), Some(YELLOW));
    assert_ne!(fb.get_pixel(30, 21), Some(YELLOW));
    assert_eq!(fb.get_pixel(30, 22), Some(YELLOW));
    assert_eq!(fb.get_pixel(30, 34), Some(YELLOW));
    assert_ne!(fb.get_pixel(30, 35), Some(YELLOW));
}

#[test]
fn a_door_takes_its_texture_from_its_state() {
    let mut atlas = TextureAtlas::empty();
    atlas.door_open = Some(ImageBuf { w: 1, h: 1, data: vec![1, 1, 1, 255] });
    atlas.door_closed = Some(ImageBuf { w: 1, h: 1, data: vec![2, 2, 2, 255] });
    atlas.pillar = Some(ImageBuf { w: 1, h: 1, data: vec![3, 3, 3, 255] });
    atlas.wall = Some(ImageBuf { w: 1, h: 1, data: vec![4, 4, 4, 255] });
    let p = Player { pos: Vector2 { x: 150, y: 150 }, a: 0, fov: 0 };
    let t = degrees();
    for (symbol, open, grey) in [('G', true, 1), ('G', false, 2), ('+', false, 3), ('|', true, 4), ('C', true, 4)] {
        let maze: Maze = vec![vec![' '; 4], vec![' ', ' ', symbol, ' '], vec![' '; 4]];
        let mut fb = Framebuffer::new(1, 9);
        render_world(&mut fb, &maze, 100, &p, &atlas, &Vec::new(), &Vec::new(), 1, open, &t);
        assert_eq!(fb.get_pixel(0, 4), Some(Color { r: grey, g: grey, b: grey, a: 255 }));
    }
}

#[test]
fn a_frame_without_pixels_is_left_alone() {
    let mut fb = Framebuffer::new(0, 0);
    render_world(&mut fb, &room(), 100, &viewer(60), &sprites(), &vec![NPC::new(350, 250, 45)], &Vec::new(), 1, false, &degrees());
    assert!(fb.color_buffer.is_empty());
    let mut fb = Framebuffer::new(5, 0);
    render_world(&mut fb, &room(), 100, &viewer(60), &sprites(), &vec![NPC::new(350, 250, 45)], &Vec::new(), 1, false, &degrees());
    assert!(fb.color_buffer.is_empty());
}

#[test]
fn agents_are_drawn_whether_hidden_or_not() {
    let t = degrees();
    let mut fb = Framebuffer::new(60, 20);
    render_npcs(&mut fb, &TextureAtlas::empty(), &viewer(60), &vec![NPC::new(450, 250, 45)], &t);
    // 200 away it spans rows 8 to 11 and 7 columns, red without a
    // sprite; the last row of its span is left out.
    for x in 0..60 {
        for y in 0..20 {
            let inside = (27..=33).contains(&x) && (8..11).contains(&y);
            assert_eq!(fb.get_pixel(x, y), Some(if inside { RED } else { BLACK }));
        }
    }
    let mut fb = Framebuffer::new(60, 20);
    render_npcs(&mut fb, &sprites(), &viewer(60), &vec![NPC::new(150, 250, 45)], &t);
    assert!(fb.color_buffer.iter().all(|c| *c == BLACK));
    render_npcs(&mut fb, &sprites(), &viewer(60), &vec![NPC::new(450, 250, 45)], &t);
    assert_eq!(fb.get_pixel(30, 9), Some(GREEN));
}

#[test]
fn the_view_from_above_shows_each_cell_as_a_block() {
    let maze = rows(&["+-|", " gC", "x"]);
    let mut fb = Framebuffer::new(7, 7);
    render_maze(&mut fb, &maze, 2);
    let violet = Color { r: 238, g: 130, b: 238, a: 255 };
    let white = Color { r: 255, g: 255, b: 255, a: 255 };
    assert_eq!(fb.get_pixel(0, 0), Some(Color { r: 138, g: 43, b: 226, a: 255 }));
    assert_eq!(fb.get_pixel(1, 1), Some(Color { r: 138, g: 43, b: 226, a: 255 }));
    assert_eq!(fb.get_pixel(2, 0), Some(violet));
    assert_eq!(fb.get_pixel(5, 1), Some(violet));
    assert_eq!(fb.get_pixel(6, 0), Some(BLACK));
    assert_eq!(fb.get_pixel(0, 2), Some(BLACK));
    assert_eq!(fb.get_pixel(2, 2), Some(Color { r: 0, g: 128, b: 0, a: 255 }));
    assert_eq!(fb.get_pixel(4, 3), Some(BLACK));
    assert_eq!(fb.get_pixel(0, 4), Some(white));
    assert_eq!(fb.get_pixel(1, 5), Some(white));
    assert_eq!(fb.get_pixel(2, 4), Some(BLACK));
    assert_eq!(fb.get_pixel(0, 6), Some(BLACK));
    assert_eq!(cell_to_color('?'), white);
    let mut fb = Framebuffer::new(4, 4);
    draw_cell(&mut fb, 1, 2, 2, ' ');
    draw_cell(&mut fb, 1, 2, 2, 'C');
    assert!(fb.color_buffer.iter().all(|c| *c == BLACK));
    draw_cell(&mut fb, 3, 3, 2, '+');
    assert_eq!(fb.color_buffer.iter().filter(|c| **c != BLACK).count(), 1);
}
