//! The first-person view: one ray per group of screen columns, a band of
//! sky, wall and floor for each, and the sprites on top where no wall
//! hides them.

use vstd::prelude::*;
use vstd::arithmetic::div_mod::lemma_fundamental_div_mod;
use vstd::arithmetic::div_mod::lemma_mod_bound;
use vstd::arithmetic::div_mod::lemma_multiply_divide_le;
use vstd::arithmetic::div_mod::lemma_multiply_divide_lt;
use crate::caster::{cast_ray, cast_spec, ray_from, Hit, Intersect};
use crate::framebuffer::{Color, Framebuffer};
use crate::anim::{float_at, CoinAnimation};
use crate::geometry::{
    div_floor, div_trunc, int_sqrt, lemma_group, magnitude, magnitude_of, sqrt_floor_wide,
    truncated, Vector2,
};
use crate::sprite::{Coin, NPC};
use crate::maze::{cell_in_bounds, cell_kind, grid_of, lemma_grid_cell, CellKind, Grid, Maze};
use crate::player::Player;
use crate::textures::{TextureAtlas, TextureKind, UV_ONE};
use crate::trig::TrigTable;

verus! {

/// How tall a wall stands: at distance `d` it covers `WALL_HEIGHT / d` of
/// half the screen's height.
pub const WALL_HEIGHT: u64 = 70;

/// How tall a collectible stands, on the scale of `WALL_HEIGHT`.
pub const COIN_HEIGHT: u64 = 60;

/// How much nearer than the wall behind it a sprite must be to show.
pub const DEPTH_TOLERANCE: u64 = 1;

/// The colour of the floor.
pub open spec fn floor_color() -> Color {
    Color { r: 90, g: 30, b: 30, a: 255 }
}

/// Everything a frame depends on but the textures and the direction
/// table.
pub struct Scene {
    pub grid: Grid,
    pub block_size: int,
    /// The viewer.
    pub x: int,
    pub y: int,
    pub a: int,
    pub fov: int,
    /// The size of the frame.
    pub width: int,
    pub height: int,
    /// How many screen columns share one ray; at least one.
    pub column_step: int,
    pub doors_open: bool,
}

/// The number of rays for a frame `width` wide: one for each started
/// group of `column_step` columns.
pub open spec fn ray_count(width: int, column_step: int) -> int {
    if width <= 0 {
        0
    } else {
        (width - 1) / column_step + 1
    }
}

/// The distance that the height of a wall goes by: the ray's length
/// along the viewer's line of sight, at least 1. `cos_offset` is the
/// cosine of the angle between the ray and that line, scaled by `scale`.
pub open spec fn corrected(distance: int, cos_offset: int, scale: int) -> int {
    let p = (distance * magnitude(cos_offset)) / scale;
    if p < 1 {
        1
    } else {
        p
    }
}

/// The height on screen of something `reference` tall at distance `dist`.
pub open spec fn projected(height: int, reference: int, dist: int) -> int {
    (height * reference) / (2 * dist)
}

/// The first row of a band `stake` rows tall, centred on the screen and
/// cut off at the top.
pub open spec fn span_top(height: int, stake: int) -> int {
    if stake >= height {
        0
    } else {
        (height - stake) / 2
    }
}

/// The last row of that band, cut off at the bottom.
pub open spec fn span_bottom(height: int, stake: int) -> int {
    let b = (height + stake) / 2;
    if b >= height {
        height - 1
    } else {
        b
    }
}

/// How far into its cell a coordinate lies, as a texture coordinate.
pub open spec fn surface_fraction(coord: int, block_size: int) -> int {
    ((coord % block_size) * UV_ONE) / block_size
}

/// The texture of the wall that a ray struck: a pillar's for `'+'`, the
/// door's for `'G'`, open or closed, and the plain wall's for the rest.
pub open spec fn wall_kind(impact: char, doors_open: bool) -> TextureKind {
    if impact == '+' {
        TextureKind::Pillar
    } else if impact == 'G' {
        if doors_open {
            TextureKind::DoorOpen
        } else {
            TextureKind::DoorClosed
        }
    } else {
        TextureKind::Wall
    }
}

/// How often a texture `tex_h` pixels tall repeats up a wall, as a
/// texture coordinate: once per `tex_h` coordinate steps of the wall's
/// height, but at least a quarter of a time and at most four times.
pub open spec fn repeats(block_size: int, tex_h: int) -> int {
    if tex_h == 0 {
        4 * UV_ONE
    } else {
        let r = (block_size * UV_ONE) / tex_h;
        if r < UV_ONE / 4 {
            UV_ONE as int / 4
        } else if r > 4 * UV_ONE {
            4 * UV_ONE
        } else {
            r
        }
    }
}

/// The texture coordinate of row `y` of a wall band.
pub open spec fn wall_v(y: int, top: int, bottom: int, repeats: int) -> int {
    ((y - top) * repeats) / (bottom - top + 1)
}

/// The sky's texture coordinate at an angle: the part of the full turn.
pub open spec fn sky_u(trig: &TrigTable, angle: int) -> int {
    (trig.step_of(angle) * UV_ONE) / trig.turn()
}

/// The sky's texture coordinate at row `y`: the sky's texture spans the
/// upper half of the screen.
pub open spec fn sky_v(y: int, height: int) -> int {
    (2 * y * UV_ONE) / height
}

impl Scene {
    /// The number of rays.
    pub open spec fn rays(&self) -> int {
        ray_count(self.width, self.column_step)
    }

    /// The angle of ray `i`: the rays fan out evenly over the field of
    /// view, from its left edge.
    pub open spec fn angle(&self, i: int) -> int {
        self.a - self.fov / 2 + (self.fov * i) / self.rays()
    }

    /// What ray `i` strikes.
    pub open spec fn hit(&self, trig: &TrigTable, i: int) -> Hit {
        cast_spec(
            self.grid,
            ray_from(
                self.x,
                self.y,
                trig.cos_at(self.angle(i)),
                trig.sin_at(self.angle(i)),
                self.block_size,
            ),
        )
    }

    /// The depth of column group `i`: the distance of its wall along the
    /// viewer's line of sight.
    pub open spec fn depth(&self, trig: &TrigTable, i: int) -> int {
        corrected(
            self.hit(trig, i).distance,
            trig.cos_at(self.angle(i) - self.a),
            trig.scale as int,
        )
    }

    /// The first row of the wall in column group `i`.
    pub open spec fn top(&self, trig: &TrigTable, i: int) -> int {
        span_top(self.height, projected(self.height, WALL_HEIGHT as int, self.depth(trig, i)))
    }

    /// The last row of the wall in column group `i`.
    pub open spec fn bottom(&self, trig: &TrigTable, i: int) -> int {
        span_bottom(self.height, projected(self.height, WALL_HEIGHT as int, self.depth(trig, i)))
    }

    /// Where across its texture the wall of column group `i` is struck:
    /// the coordinate that runs along the struck side.
    pub open spec fn wall_u(&self, trig: &TrigTable, i: int) -> int {
        let h = self.hit(trig, i);
        if h.side == 0 {
            surface_fraction(h.hit_y, self.block_size)
        } else {
            surface_fraction(h.hit_x, self.block_size)
        }
    }

    /// The texture of the wall in column group `i`.
    pub open spec fn kind(&self, trig: &TrigTable, i: int) -> TextureKind {
        wall_kind(self.hit(trig, i).impact, self.doors_open)
    }

    /// How often the texture repeats up the wall in column group `i`.
    pub open spec fn wall_repeats(&self, textures: &TextureAtlas, trig: &TrigTable, i: int) -> int {
        repeats(
            self.block_size,
            match textures.texture(self.kind(trig, i)) {
                Some(img) => img.h as int,
                None => 32,
            },
        )
    }

    /// The colour of row `y` in column group `i` before any sprite: floor
    /// below the wall, the wall's texture on it, sky above.
    pub open spec fn band_pixel(&self, textures: &TextureAtlas, trig: &TrigTable, i: int, y: int) -> Color {
        if y > self.bottom(trig, i) {
            floor_color()
        } else if y >= self.top(trig, i) {
            textures.sample_spec(
                self.kind(trig, i),
                self.wall_u(trig, i),
                wall_v(y, self.top(trig, i), self.bottom(trig, i), self.wall_repeats(textures, trig, i)),
            )
        } else {
            textures.sky_spec(sky_u(trig, self.angle(i)), sky_v(y, self.height))
        }
    }

    /// The colour of pixel `(x, y)` before any sprite.
    pub open spec fn wall_pixel(&self, textures: &TextureAtlas, trig: &TrigTable, x: int, y: int) -> Color {
        self.band_pixel(textures, trig, x / self.column_step, y)
    }
}

/// The scene that `render_world` draws.
pub open spec fn scene_of(
    width: u32,
    height: u32,
    maze: &Maze,
    block_size: u32,
    player: &Player,
    column_step: usize,
    doors_open: bool,
) -> Scene {
    Scene {
        grid: grid_of(maze),
        block_size: block_size as int,
        x: player.pos.x as int,
        y: player.pos.y as int,
        a: player.a as int,
        fov: player.fov as int,
        width: width as int,
        height: height as int,
        column_step: if column_step < 1 {
            1
        } else {
            column_step as int
        },
        doors_open,
    }
}

/// What the wall pass knows of one column group.
struct Column {
    depth: u64,
    top: u32,
    bottom: i64,
    u: u32,
    kind: TextureKind,
    repeats: u32,
    sky_u: u32,
}

/// The number of rays for a frame.
fn count_rays(width: u32, step: u64) -> (n: u32)
    requires
        step >= 1,
    ensures
        n == ray_count(width as int, step as int),
        n <= width,
        forall|i: int| 0 <= i < n ==> #[trigger] (i * step) < width,
{
    if width == 0 {
        return 0;
    }
    let q: u64 = ((width - 1) as u64) / step;
    proof {
        let w1 = (width - 1) as int;
        let st = step as int;
        lemma_fundamental_div_mod(w1, st);
        lemma_mod_bound(w1, st);
        assert(w1 / st <= w1) by (nonlinear_arith)
            requires
                w1 >= 0,
                st >= 1,
        ;
        assert(w1 / st >= 0) by (nonlinear_arith)
            requires
                w1 >= 0,
                st >= 1,
        ;
        assert forall|i: int| 0 <= i < q + 1 implies #[trigger] (i * step) < width by {
            assert(i * st <= (w1 / st) * st) by (nonlinear_arith)
                requires
                    0 <= i <= w1 / st,
                    st >= 1,
            ;
            assert((w1 / st) * st == st * (w1 / st)) by (nonlinear_arith);
        }
    }
    (q + 1) as u32
}

/// The depth of a column group from the length of its ray.
fn corrected_depth(distance: u64, cos_offset: i32, scale: u32) -> (d: u64)
    requires
        scale > 0,
        distance < 0x1_0000_0000_0000,
        -scale <= cos_offset <= scale,
    ensures
        d == corrected(distance as int, cos_offset as int, scale as int),
        1 <= d <= 0x1_0000_0000_0000,
{
    let m: u32 = magnitude_of(cos_offset);
    proof {
        assert(0 <= distance * m <= distance * scale) by (nonlinear_arith)
            requires
                0 <= m <= scale,
                distance >= 0,
        ;
        assert(distance * scale <= 0x1_0000_0000_0000 * 0xffff_ffff) by (nonlinear_arith)
            requires
                0 <= distance <= 0x1_0000_0000_0000,
                0 <= scale <= 0xffff_ffff,
        ;
        assert(scale * distance == distance * scale) by (nonlinear_arith);
        lemma_multiply_divide_le(distance * m, scale as int, distance as int);
        assert((distance * m) / (scale as int) >= 0) by (nonlinear_arith)
            requires
                distance * m >= 0,
                scale > 0,
        ;
    }
    let p: u128 = ((distance as u128) * (m as u128)) / (scale as u128);
    if p < 1 {
        1
    } else {
        p as u64
    }
}

/// How far into its cell a coordinate lies, as a texture coordinate.
fn fraction_of(coord: i64, block_size: u32) -> (u: u32)
    requires
        block_size > 0,
    ensures
        u == surface_fraction(coord as int, block_size as int),
{
    let (_q, r) = div_floor(coord, block_size as u64);
    proof {
        assert(0 <= r * 65536 < block_size * 65536) by (nonlinear_arith)
            requires
                0 <= r < block_size,
        ;
        assert(65536 * 65536 == 0x1_0000_0000int);
        lemma_multiply_divide_lt(r * 65536, block_size as int, 65536);
        assert((r * 65536) / (block_size as int) >= 0) by (nonlinear_arith)
            requires
                r * 65536 >= 0,
                block_size > 0,
        ;
    }
    ((r * (UV_ONE as u64)) / (block_size as u64)) as u32
}

/// How often a texture repeats up a wall.
fn repeats_of(block_size: u32, tex_h: u32) -> (r: u32)
    ensures
        r == repeats(block_size as int, tex_h as int),
        UV_ONE / 4 <= r <= 4 * UV_ONE,
{
    if tex_h == 0 {
        return 4 * UV_ONE;
    }
    proof {
        assert(0 <= block_size * 65536 <= 0xffff_ffff * 65536) by (nonlinear_arith)
            requires
                0 <= block_size <= 0xffff_ffff,
        ;
    }
    let r: u64 = ((block_size as u64) * (UV_ONE as u64)) / (tex_h as u64);
    if r < (UV_ONE / 4) as u64 {
        UV_ONE / 4
    } else if r > (4 * UV_ONE) as u64 {
        4 * UV_ONE
    } else {
        r as u32
    }
}

/// The texture of the wall that a ray struck.
fn kind_of_wall(impact: char, doors_open: bool) -> (k: TextureKind)
    ensures
        k == wall_kind(impact, doors_open),
{
    let kind = cell_kind(impact);
    if kind.is_door() {
        if doors_open {
            TextureKind::DoorOpen
        } else {
            TextureKind::DoorClosed
        }
    } else {
        match kind {
            CellKind::Pillar => TextureKind::Pillar,
            _ => TextureKind::Wall,
        }
    }
}

/// Casts ray `i` and works out the band of its column group.
fn column_at(
    maze: &Maze,
    block_size: u32,
    player: &Player,
    textures: &TextureAtlas,
    trig: &TrigTable,
    height: u32,
    rays: u32,
    i: u32,
    doors_open: bool,
    Ghost(sc): Ghost<Scene>,
) -> (col: Column)
    requires
        block_size > 0,
        trig.wf(),
        i < rays,
        rays == sc.rays(),
        sc.grid == grid_of(maze),
        sc.block_size == block_size,
        sc.x == player.pos.x,
        sc.y == player.pos.y,
        sc.a == player.a,
        sc.fov == player.fov,
        sc.height == height,
        sc.doors_open == doors_open,
    ensures
        col.depth == sc.depth(trig, i as int),
        1 <= col.depth <= 0x1_0000_0000_0000,
        col.top == sc.top(trig, i as int),
        col.bottom == sc.bottom(trig, i as int),
        col.u == sc.wall_u(trig, i as int),
        col.kind == sc.kind(trig, i as int),
        col.repeats == sc.wall_repeats(textures, trig, i as int),
        col.repeats <= 4 * UV_ONE,
        col.sky_u == sky_u(trig, sc.angle(i as int)),
        col.top <= height,
        -1 <= col.bottom < height,
{
    proof {
        assert(0 <= player.fov * i <= 0xffff_ffff * 0xffff_ffff) by (nonlinear_arith)
            requires
                0 <= player.fov <= 0xffff_ffff,
                0 <= i <= 0xffff_ffff,
        ;
        assert(player.fov * i <= rays * player.fov) by (nonlinear_arith)
            requires
                0 <= player.fov,
                0 <= i < rays,
        ;
        lemma_multiply_divide_le(player.fov * i, rays as int, player.fov as int);
        assert((player.fov * i) / (rays as int) >= 0) by (nonlinear_arith)
            requires
                0 <= player.fov * i,
                rays > 0,
        ;
    }
    let sweep: u64 = ((player.fov as u64) * (i as u64)) / (rays as u64);
    let angle: i64 = player.a as i64 - (player.fov / 2) as i64 + sweep as i64;
    assert(angle == sc.angle(i as int));
    let dx: i32 = trig.cos_of(angle);
    let dy: i32 = trig.sin_of(angle);
    let hit: Intersect = cast_ray(maze, player, dx, dy, block_size);
    assert(hit@ == sc.hit(trig, i as int));
    let cos_offset: i32 = trig.cos_of(angle - player.a as i64);
    let depth: u64 = corrected_depth(hit.distance, cos_offset, trig.scale);
    let stake: u64 = ((height as u64) * WALL_HEIGHT) / (2 * depth);
    let top: u32 = if stake >= height as u64 {
        0
    } else {
        ((height as u64 - stake) / 2) as u32
    };
    let low: u64 = (height as u64 + stake) / 2;
    let bottom: i64 = if low >= height as u64 {
        height as i64 - 1
    } else {
        low as i64
    };
    let u: u32 = if hit.side == 0 {
        fraction_of(hit.hit_y, block_size)
    } else {
        fraction_of(hit.hit_x, block_size)
    };
    let kind: TextureKind = kind_of_wall(hit.impact, doors_open);
    let tex_h: u32 = textures.texture_height(kind);
    let repeats: u32 = repeats_of(block_size, tex_h);
    let step: usize = trig.step(angle);
    let turn: usize = trig.steps();
    proof {
        assert(0 <= step * 65536 < turn * 65536) by (nonlinear_arith)
            requires
                0 <= step < turn,
        ;
        lemma_multiply_divide_lt(step * 65536, turn as int, 65536);
        assert((step * 65536) / (turn as int) >= 0) by (nonlinear_arith)
            requires
                step * 65536 >= 0,
                turn > 0,
        ;
    }
    let sky: u32 = (((step as u64) * (UV_ONE as u64)) / (turn as u64)) as u32;
    Column { depth, top, bottom, u, kind, repeats, sky_u: sky }
}

/// Every column of the frame lies in a group that has a ray.
proof fn lemma_group_in_range(px: int, width: int, step: int)
    requires
        step >= 1,
        0 <= px < width,
    ensures
        0 <= px / step < ray_count(width, step),
{
    vstd::arithmetic::div_mod::lemma_div_is_ordered(px, width - 1, step);
    assert(px / step >= 0) by (nonlinear_arith)
        requires
            px >= 0,
            step >= 1,
    ;
}

/// Draws the band of column group `i` into the columns from `x0` up to,
/// but not including, `x1`.
fn draw_band(
    fb: &mut Framebuffer,
    textures: &TextureAtlas,
    trig: &TrigTable,
    col: &Column,
    x0: u32,
    x1: u32,
    Ghost(i): Ghost<int>,
    Ghost(sc): Ghost<Scene>,
)
    requires
        old(fb).wf(),
        sc.height == old(fb).height,
        col.top == sc.top(trig, i),
        col.bottom == sc.bottom(trig, i),
        col.u == sc.wall_u(trig, i),
        col.kind == sc.kind(trig, i),
        col.repeats == sc.wall_repeats(textures, trig, i),
        col.repeats <= 4 * UV_ONE,
        col.sky_u == sky_u(trig, sc.angle(i)),
        col.bottom < sc.height,
    ensures
        final(fb).wf(),
        final(fb).same_frame(old(fb)),
        forall|px: int, py: int|
            final(fb).has_pixel(px, py) ==> #[trigger] final(fb).pixel(px, py) == (if x0 <= px
                < x1 {
                sc.band_pixel(textures, trig, i, py)
            } else {
                old(fb).pixel(px, py)
            }),
{
    let height: u32 = fb.height;
    let mut y: u32 = 0;
    while y < height
        invariant
            fb.wf(),
            fb.same_frame(old(fb)),
            height == fb.height,
            sc.height == height,
            y <= height,
            col.top == sc.top(trig, i),
            col.bottom == sc.bottom(trig, i),
            col.u == sc.wall_u(trig, i),
            col.kind == sc.kind(trig, i),
            col.repeats == sc.wall_repeats(textures, trig, i),
            col.repeats <= 4 * UV_ONE,
            col.sky_u == sky_u(trig, sc.angle(i)),
            col.bottom < sc.height,
            forall|px: int, py: int|
                fb.has_pixel(px, py) ==> #[trigger] fb.pixel(px, py) == (if x0 <= px < x1 && py
                    < y {
                    sc.band_pixel(textures, trig, i, py)
                } else {
                    old(fb).pixel(px, py)
                }),
        decreases height - y,
    {
        let color: Color = if (y as i64) > col.bottom {
            Color { r: 90, g: 30, b: 30, a: 255 }
        } else if y >= col.top {
            let rows: u64 = (col.bottom - col.top as i64 + 1) as u64;
            let into: u64 = (y - col.top) as u64;
            proof {
                assert(0 <= into * col.repeats <= rows * col.repeats) by (nonlinear_arith)
                    requires
                        0 <= into < rows,
                        0 <= col.repeats,
                ;
                assert(rows * col.repeats <= 0x1_0000_0000 * 0x4_0000) by (nonlinear_arith)
                    requires
                        0 <= rows <= 0x1_0000_0000,
                        0 <= col.repeats <= 0x4_0000,
                ;
                lemma_multiply_divide_le(into * col.repeats, rows as int, col.repeats as int);
                assert((into * col.repeats) / (rows as int) >= 0) by (nonlinear_arith)
                    requires
                        into * col.repeats >= 0,
                        rows > 0,
                ;
            }
            let v: u32 = ((into * (col.repeats as u64)) / rows) as u32;
            textures.sample(col.kind, col.u, v)
        } else {
            proof {
                assert(2 * y * 65536 < height * (2 * 65536)) by (nonlinear_arith)
                    requires
                        0 <= y < height,
                ;
                lemma_multiply_divide_lt(2 * y * 65536, height as int, 131072int);
                assert((2 * y * 65536) / (height as int) >= 0) by (nonlinear_arith)
                    requires
                        y >= 0,
                        height > 0,
                ;
            }
            let v: u32 = ((2 * (y as u64) * (UV_ONE as u64)) / (height as u64)) as u32;
            textures.sample_sky(col.sky_u, v)
        };
        assert(color == sc.band_pixel(textures, trig, i, y as int));
        fb.fill_span(x0, x1, y, color);
        y = y + 1;
    }
}

/// Casts the rays and draws sky, walls and floor; returns the depth of
/// each column group.
fn draw_walls(
    fb: &mut Framebuffer,
    maze: &Maze,
    block_size: u32,
    player: &Player,
    textures: &TextureAtlas,
    trig: &TrigTable,
    step: u64,
    doors_open: bool,
    Ghost(sc): Ghost<Scene>,
) -> (depth: Vec<u64>)
    requires
        old(fb).wf(),
        block_size > 0,
        trig.wf(),
        step >= 1,
        sc.column_step == step,
        sc.width == old(fb).width,
        sc.height == old(fb).height,
        sc.grid == grid_of(maze),
        sc.block_size == block_size,
        sc.x == player.pos.x,
        sc.y == player.pos.y,
        sc.a == player.a,
        sc.fov == player.fov,
        sc.doors_open == doors_open,
    ensures
        final(fb).wf(),
        final(fb).same_frame(old(fb)),
        depth@.len() == sc.rays(),
        forall|k: int| 0 <= k < depth@.len() ==> #[trigger] depth@[k] == sc.depth(trig, k),
        forall|px: int, py: int|
            final(fb).has_pixel(px, py) ==> #[trigger] final(fb).pixel(px, py) == sc.wall_pixel(
                textures,
                trig,
                px,
                py,
            ),
{
    let width: u32 = fb.width;
    let height: u32 = fb.height;
    let rays: u32 = count_rays(width, step);
    let mut depth: Vec<u64> = Vec::new();
    let mut i: u32 = 0;
    while i < rays
        invariant
            fb.wf(),
            fb.same_frame(old(fb)),
            width == fb.width,
            height == fb.height,
            block_size > 0,
            trig.wf(),
            step >= 1,
            sc.column_step == step,
            sc.width == width,
            sc.height == height,
            sc.grid == grid_of(maze),
            sc.block_size == block_size,
            sc.x == player.pos.x,
            sc.y == player.pos.y,
            sc.a == player.a,
            sc.fov == player.fov,
            sc.doors_open == doors_open,
            rays == sc.rays(),
            i <= rays,
            forall|k: int| 0 <= k < rays ==> #[trigger] (k * step) < width,
            depth@.len() == i,
            forall|k: int| 0 <= k < i ==> #[trigger] depth@[k] == sc.depth(trig, k),
            forall|px: int, py: int|
                fb.has_pixel(px, py) ==> #[trigger] fb.pixel(px, py) == (if px / (step as int)
                    < i {
                    sc.wall_pixel(textures, trig, px, py)
                } else {
                    old(fb).pixel(px, py)
                }),
        decreases rays - i,
    {
        let col: Column = column_at(
            maze,
            block_size,
            player,
            textures,
            trig,
            height,
            rays,
            i,
            doors_open,
            Ghost(sc),
        );
        assert((i as int) * step < width);
        let x0: u32 = ((i as u64) * step) as u32;
        let x1: u32 = if step >= (width - x0) as u64 {
            width
        } else {
            x0 + step as u32
        };
        let ghost before = *fb;
        draw_band(fb, textures, trig, &col, x0, x1, Ghost(i as int), Ghost(sc));
        depth.push(col.depth);
        proof {
            assert forall|px: int, py: int| fb.has_pixel(px, py) implies #[trigger] fb.pixel(px, py)
                == (if px / (step as int) < i + 1 {
                sc.wall_pixel(textures, trig, px, py)
            } else {
                old(fb).pixel(px, py)
            }) by {
                lemma_group(px, step as int, i as int);
                assert(before.has_pixel(px, py));
            }
        }
        i = i + 1;
    }
    proof {
        assert forall|px: int, py: int| fb.has_pixel(px, py) implies #[trigger] fb.pixel(px, py)
            == sc.wall_pixel(textures, trig, px, py) by {
            lemma_group_in_range(px, width as int, step as int);
        }
    }
    depth
}

/// The least opacity that a pixel of an agent's sprite must exceed to be
/// drawn.
pub const NPC_ALPHA: u8 = 16;

/// The least opacity that a pixel of a collectible must exceed to be
/// drawn.
pub const COIN_ALPHA: u8 = 64;

/// What a sprite is drawn with.
#[derive(Clone, Copy, Debug)]
pub enum Skin {
    /// The agent's sprite.
    Agent,
    /// The agent's sprite, or plain red where there is none to sample.
    AgentOrRed,
    /// The frame of the collectible's sheet that shows at `phase`.
    Collectible { phase: u32 },
}

/// How the size of a kind of sprite follows from its distance: its
/// height on the scale of `WALL_HEIGHT`, its width as a part
/// `w_num / w_den` of its height, and its least width.
pub struct Style {
    pub reference: int,
    pub w_num: int,
    pub w_den: int,
    pub w_min: int,
}

/// The rectangle that a sprite covers on screen.
pub struct Shape {
    /// The column of its centre.
    pub sx: int,
    /// Its first and last row; the sprite's texture spans them.
    pub top: int,
    pub bottom: int,
    /// The last row that is drawn.
    pub last: int,
    /// Its width, which the texture spans, and how many columns it
    /// covers on each side of its centre.
    pub w: int,
    pub half: int,
    /// Its distance from the viewer.
    pub dist: int,
}

/// What sprites are drawn onto: the size of the frame and, where walls
/// can hide sprites, the depth of each group of `column_step` columns.
pub struct Screen {
    pub width: int,
    pub height: int,
    pub column_step: int,
    pub occluding: bool,
    pub depth: Seq<int>,
}

/// How an agent is sized: half as wide as tall, at least 3 columns.
pub open spec fn agent_style() -> Style {
    Style { reference: WALL_HEIGHT as int, w_num: 1, w_den: 2, w_min: 3 }
}

/// How `render_npcs` sizes an agent: at least 6 columns wide.
pub open spec fn flat_agent_style() -> Style {
    Style { reference: WALL_HEIGHT as int, w_num: 1, w_den: 2, w_min: 6 }
}

/// How a collectible is sized: four fifths as wide as tall, at least 4
/// columns.
pub open spec fn coin_style() -> Style {
    Style { reference: COIN_HEIGHT as int, w_num: 4, w_den: 5, w_min: 4 }
}

/// The colour of an agent without a sprite.
pub open spec fn red() -> Color {
    Color { r: 200, g: 30, b: 30, a: 255 }
}

/// The distance of a sprite `(dx, dy)` away, at least 1.
pub open spec fn sprite_distance(dx: int, dy: int) -> int {
    let d = int_sqrt((dx * dx + dy * dy) as nat) as int;
    if d < 1 {
        1
    } else {
        d
    }
}

/// The angle between the viewer's line of sight `a` and the direction
/// `(dx, dy)`, from half a turn to the left (negative) to half a turn to
/// the right.
pub open spec fn relative_bearing(trig: &TrigTable, a: int, dx: int, dy: int) -> int {
    let n = trig.turn();
    (trig.bearing_of(dx, dy) - a + n / 2) % n - n / 2
}

/// Whether something at the relative bearing `rel` lies within a field
/// of view `fov` wide. Without a field of view nothing does.
pub open spec fn in_view(rel: int, fov: int) -> bool {
    fov > 0 && 2 * magnitude(rel) <= fov
}

/// The screen column of a relative bearing: the left edge of the field
/// of view is column 0, its right edge column `width`.
pub open spec fn screen_column(rel: int, fov: int, width: int) -> int {
    ((2 * rel + fov) * width) / (2 * fov)
}

/// The colour that a skin gives at `(u, v)`, or `None` where it is too
/// clear to draw.
pub open spec fn skin_sample(textures: &TextureAtlas, skin: Skin, u: int, v: int, cycle: int) -> Option<
    Color,
> {
    match skin {
        Skin::Agent => match textures.npc_spec(u, v) {
            Some(c) => if c.a > NPC_ALPHA {
                Some(c)
            } else {
                None
            },
            None => None,
        },
        Skin::AgentOrRed => match textures.npc_spec(u, v) {
            Some(c) => if c.a > NPC_ALPHA {
                Some(c)
            } else {
                None
            },
            None => Some(red()),
        },
        Skin::Collectible { phase } => match textures.coin_spec(u, v, phase as int, cycle) {
            Some(c) => if c.a > COIN_ALPHA {
                Some(c)
            } else {
                None
            },
            None => None,
        },
    }
}

impl Screen {
    /// Whether a wall hides a sprite at distance `dist` in column `x`:
    /// the sprite shows only where it is nearer than the wall by at
    /// least `DEPTH_TOLERANCE`, and only in a column group that has a
    /// depth.
    pub open spec fn hidden(&self, dist: int, x: int) -> bool {
        self.occluding && !(0 <= x / self.column_step < self.depth.len() && dist
            + DEPTH_TOLERANCE <= self.depth[x / self.column_step])
    }

    /// The colour that a sprite writes to pixel `(x, y)`, if it writes
    /// one: the pixel lies in the sprite's rectangle, no wall hides the
    /// sprite in that column, and the skin is opaque enough there.
    pub open spec fn sprite_writes(
        &self,
        textures: &TextureAtlas,
        cycle: int,
        shape: Shape,
        skin: Skin,
        x: int,
        y: int,
    ) -> Option<Color> {
        if shape.sx - shape.half <= x <= shape.sx + shape.half && 0 <= x && !self.hidden(
            shape.dist,
            x,
        ) && shape.top <= y <= shape.last && 0 <= y < self.height {
            skin_sample(
                textures,
                skin,
                ((x - shape.sx + shape.half) * UV_ONE) / shape.w,
                ((y - shape.top) * UV_ONE) / (shape.bottom - shape.top + 1),
                cycle,
            )
        } else {
            None
        }
    }

    /// The colour of pixel `(x, y)` once a sprite has been drawn over
    /// `under`; a sprite out of view (`None`) changes nothing.
    pub open spec fn sprite_over(
        &self,
        textures: &TextureAtlas,
        cycle: int,
        shape: Option<Shape>,
        skin: Skin,
        under: Color,
        x: int,
        y: int,
    ) -> Color {
        match shape {
            Some(sh) => match self.sprite_writes(textures, cycle, sh, skin, x, y) {
                Some(c) => c,
                None => under,
            },
            None => under,
        }
    }
}

/// The rectangle of a sprite at `pos` for a viewer at `(x, y)` looking
/// along `a`, or `None` when it lies outside the field of view. `lift`
/// moves it down the screen by that many rows.
pub open spec fn shape_of(
    trig: &TrigTable,
    player: &Player,
    width: int,
    height: int,
    pos: Vector2,
    style: Style,
    lift: int,
) -> Option<Shape> {
    let dx = pos.x - player.pos.x;
    let dy = pos.y - player.pos.y;
    let rel = relative_bearing(trig, player.a as int, dx, dy);
    if !in_view(rel, player.fov as int) {
        None
    } else {
        let dist = sprite_distance(dx, dy);
        let h = projected(height, style.reference, dist);
        let w0 = (h * style.w_num) / style.w_den;
        let w = if w0 < style.w_min {
            style.w_min
        } else {
            w0
        };
        let half = if w / 2 < 1 {
            1
        } else {
            w / 2
        };
        let bottom = truncated(height + h + 2 * lift, 2);
        Some(
            Shape {
                sx: screen_column(rel, player.fov as int, width),
                top: truncated(height - h + 2 * lift, 2),
                bottom,
                last: bottom,
                w,
                half,
                dist,
            },
        )
    }
}

/// The rectangle of an agent.
pub open spec fn npc_shape(trig: &TrigTable, player: &Player, width: int, height: int, npc: NPC) -> Option<
    Shape,
> {
    shape_of(trig, player, width, height, npc.pos, agent_style(), 0)
}

/// The rectangle of a collectible, which floats up and down with its
/// phase; `None` once it is collected.
pub open spec fn coin_shape(trig: &TrigTable, player: &Player, width: int, height: int, coin: Coin) -> Option<
    Shape,
> {
    if coin.collected {
        None
    } else {
        shape_of(
            trig,
            player,
            width,
            height,
            coin.pos,
            coin_style(),
            float_at(coin.animation_time as int, trig),
        )
    }
}

/// The colour of pixel `(x, y)` once the first `n` agents have been
/// drawn over `base`, each over the ones before it.
pub open spec fn npcs_over(
    screen: Screen,
    textures: &TextureAtlas,
    trig: &TrigTable,
    player: &Player,
    npcs: Seq<NPC>,
    n: nat,
    base: Color,
    x: int,
    y: int,
) -> Color
    decreases n,
{
    if n == 0 {
        base
    } else {
        screen.sprite_over(
            textures,
            trig.turn(),
            npc_shape(trig, player, screen.width, screen.height, npcs[n - 1]),
            Skin::Agent,
            npcs_over(screen, textures, trig, player, npcs, (n - 1) as nat, base, x, y),
            x,
            y,
        )
    }
}

/// The colour of pixel `(x, y)` once the first `n` collectibles have
/// been drawn over `base`, each over the ones before it.
pub open spec fn coins_over(
    screen: Screen,
    textures: &TextureAtlas,
    trig: &TrigTable,
    player: &Player,
    coins: Seq<Coin>,
    n: nat,
    base: Color,
    x: int,
    y: int,
) -> Color
    decreases n,
{
    if n == 0 {
        base
    } else {
        screen.sprite_over(
            textures,
            trig.turn(),
            coin_shape(trig, player, screen.width, screen.height, coins[n - 1]),
            Skin::Collectible { phase: coins[n - 1].animation_time },
            coins_over(screen, textures, trig, player, coins, (n - 1) as nat, base, x, y),
            x,
            y,
        )
    }
}

/// The rectangle of a sprite, in machine numbers.
struct SpriteShape {
    sx: i64,
    top: i64,
    bottom: i64,
    last: i64,
    w: i64,
    half: i64,
    dist: u64,
}

impl View for SpriteShape {
    type V = Shape;

    closed spec fn view(&self) -> Shape {
        Shape {
            sx: self.sx as int,
            top: self.top as int,
            bottom: self.bottom as int,
            last: self.last as int,
            w: self.w as int,
            half: self.half as int,
            dist: self.dist as int,
        }
    }
}

impl SpriteShape {
    /// The numbers are small enough to compute with.
    spec fn bounded(&self) -> bool {
        &&& 0 <= self.sx <= 0xffff_ffff
        &&& -0x1_0000_0000_0000 <= self.top <= self.bottom <= 0x1_0000_0000_0000
        &&& self.last <= self.bottom
        &&& 1 <= self.half
        &&& 2 * self.half <= self.w <= 0x1_0000_0000_0000
        &&& self.dist <= 0x1_0000_0000_0000
    }
}

/// What a skin gives at `(u, v)`.
fn sample_skin(textures: &TextureAtlas, skin: Skin, u: u32, v: u32, cycle: u32) -> (c: Option<Color>)
    requires
        cycle > 0,
    ensures
        c == skin_sample(textures, skin, u as int, v as int, cycle as int),
{
    match skin {
        Skin::Agent => match textures.sample_npc(u, v) {
            Some(c) => if c.a > NPC_ALPHA {
                Some(c)
            } else {
                None
            },
            None => None,
        },
        Skin::AgentOrRed => match textures.sample_npc(u, v) {
            Some(c) => if c.a > NPC_ALPHA {
                Some(c)
            } else {
                None
            },
            None => Some(Color { r: 200, g: 30, b: 30, a: 255 }),
        },
        Skin::Collectible { phase } => match textures.sample_coin(u, v, phase, cycle) {
            Some(c) => if c.a > COIN_ALPHA {
                Some(c)
            } else {
                None
            },
            None => None,
        },
    }
}

/// Whether a wall hides a sprite at distance `dist` in column `x`.
fn is_hidden(depth: &Vec<u64>, occluding: bool, step: u64, dist: u64, x: u32, Ghost(screen): Ghost<Screen>) -> (h: bool)
    requires
        step >= 1,
        screen.column_step == step,
        screen.occluding == occluding,
        dist <= 0x1_0000_0000_0000,
        occluding ==> screen.depth.len() == depth@.len(),
        occluding ==> forall|k: int| 0 <= k < depth@.len() ==> #[trigger] depth@[k] == screen.depth[k],
    ensures
        h == screen.hidden(dist as int, x as int),
{
    if !occluding {
        return false;
    }
    let group: u64 = (x as u64) / step;
    proof {
        assert((x as int) / (step as int) >= 0) by (nonlinear_arith)
            requires
                x >= 0,
                step >= 1,
        ;
    }
    if group >= depth.len() as u64 {
        return true;
    }
    !(dist + DEPTH_TOLERANCE <= depth[group as usize])
}

/// Draws one sprite over what the frame holds.
fn draw_sprite(
    fb: &mut Framebuffer,
    textures: &TextureAtlas,
    depth: &Vec<u64>,
    occluding: bool,
    step: u64,
    cycle: u32,
    shape: &SpriteShape,
    skin: Skin,
    Ghost(screen): Ghost<Screen>,
)
    requires
        old(fb).wf(),
        cycle > 0,
        step >= 1,
        shape.bounded(),
        screen.width == old(fb).width,
        screen.height == old(fb).height,
        screen.column_step == step,
        screen.occluding == occluding,
        occluding ==> screen.depth.len() == depth@.len(),
        occluding ==> forall|k: int| 0 <= k < depth@.len() ==> #[trigger] depth@[k] == screen.depth[k],
    ensures
        final(fb).wf(),
        final(fb).same_frame(old(fb)),
        forall|px: int, py: int|
            final(fb).has_pixel(px, py) ==> #[trigger] final(fb).pixel(px, py)
                == screen.sprite_over(
                textures,
                cycle as int,
                Some(shape@),
                skin,
                old(fb).pixel(px, py),
                px,
                py,
            ),
{
    let width: u32 = fb.width;
    let height: u32 = fb.height;
    if width == 0 || height == 0 {
        return;
    }
    let left: i64 = shape.sx - shape.half;
    let right: i64 = shape.sx + shape.half;
    let lo: i64 = if left < 0 { 0 } else { left };
    let hi: i64 = if right > width as i64 - 1 { width as i64 - 1 } else { right };
    let ylo: i64 = if shape.top < 0 { 0 } else { shape.top };
    let yhi: i64 = if shape.last > height as i64 - 1 { height as i64 - 1 } else { shape.last };
    let rows: u64 = (shape.bottom - shape.top + 1) as u64;
    if lo > hi {
        return;
    }
    let mut px: i64 = lo;
    while px <= hi
        invariant
            fb.wf(),
            fb.same_frame(old(fb)),
            width == fb.width,
            height == fb.height,
            cycle > 0,
            step >= 1,
            shape.bounded(),
            screen.width == width,
            screen.height == height,
            screen.column_step == step,
            screen.occluding == occluding,
            occluding ==> screen.depth.len() == depth@.len(),
            occluding ==> forall|k: int| 0 <= k < depth@.len() ==> #[trigger] depth@[k] == screen.depth[k],
            left == shape.sx - shape.half,
            right == shape.sx + shape.half,
            lo == (if left < 0 { 0 } else { left }),
            hi == (if right > width - 1 { width - 1 } else { right as int }),
            ylo == (if shape.top < 0 { 0 } else { shape.top }),
            yhi == (if shape.last > height - 1 { height - 1 } else { shape.last as int }),
            rows == shape.bottom - shape.top + 1,
            lo <= px <= hi + 1,
            forall|x: int, y: int|
                fb.has_pixel(x, y) ==> #[trigger] fb.pixel(x, y) == (if x < px {
                    screen.sprite_over(
                        textures,
                        cycle as int,
                        Some(shape@),
                        skin,
                        old(fb).pixel(x, y),
                        x,
                        y,
                    )
                } else {
                    old(fb).pixel(x, y)
                }),
        decreases hi + 1 - px,
    {
        let hidden: bool = is_hidden(depth, occluding, step, shape.dist, px as u32, Ghost(screen));
        if !hidden && ylo <= yhi {
            let across: u64 = (px - left) as u64;
            proof {
                assert(0 <= across * 65536 <= shape.w * 65536) by (nonlinear_arith)
                    requires
                        0 <= across <= shape.w,
                ;
                lemma_multiply_divide_le(across * 65536, shape.w as int, 65536);
                assert((across * 65536) / (shape.w as int) >= 0) by (nonlinear_arith)
                    requires
                        across * 65536 >= 0,
                        shape.w > 0,
                ;
            }
            let u: u32 = ((across * (UV_ONE as u64)) / (shape.w as u64)) as u32;
            let mut y: i64 = ylo;
            while y <= yhi
                invariant
                    fb.wf(),
                    fb.same_frame(old(fb)),
                    width == fb.width,
                    height == fb.height,
                    cycle > 0,
                    shape.bounded(),
                    screen.width == width,
                    screen.height == height,
                    left == shape.sx - shape.half,
                    right == shape.sx + shape.half,
                    ylo == (if shape.top < 0 { 0 } else { shape.top }),
                    yhi == (if shape.last > height - 1 { height - 1 } else { shape.last as int }),
                    rows == shape.bottom - shape.top + 1,
                    0 <= lo <= px <= hi < width,
                    left <= px <= right,
                    !screen.hidden(shape.dist as int, px as int),
                    u == ((px - shape.sx + shape.half) * UV_ONE) / (shape.w as int),
                    ylo <= y <= yhi + 1,
                    forall|x: int, yy: int|
                        fb.has_pixel(x, yy) ==> #[trigger] fb.pixel(x, yy) == (if x < px || (x
                            == px && yy < y) {
                            screen.sprite_over(
                                textures,
                                cycle as int,
                                Some(shape@),
                                skin,
                                old(fb).pixel(x, yy),
                                x,
                                yy,
                            )
                        } else {
                            old(fb).pixel(x, yy)
                        }),
                decreases yhi + 1 - y,
            {
                let down: u64 = (y - shape.top) as u64;
                proof {
                    assert(0 <= down * 65536 < rows * 65536) by (nonlinear_arith)
                        requires
                            0 <= down < rows,
                    ;
                    assert(rows * 65536 <= 0x4_0000_0000_0000 * 65536) by (nonlinear_arith)
                        requires
                            0 <= rows <= 0x4_0000_0000_0000,
                    ;
                    lemma_multiply_divide_lt(down * 65536, rows as int, 65536);
                    assert((down * 65536) / (rows as int) >= 0) by (nonlinear_arith)
                        requires
                            down * 65536 >= 0,
                            rows > 0,
                    ;
                }
                let v: u32 = (((down as u128) * (UV_ONE as u128)) / (rows as u128)) as u32;
                let ghost before = *fb;
                match sample_skin(textures, skin, u, v, cycle) {
                    Some(c) => {
                        fb.set_pixel_color(px as u32, y as u32, c);
                    },
                    None => {},
                }
                proof {
                    assert forall|x: int, yy: int| fb.has_pixel(x, yy) implies #[trigger] fb.pixel(
                        x,
                        yy,
                    ) == (if x < px || (x == px && yy < y + 1) {
                        screen.sprite_over(
                            textures,
                            cycle as int,
                            Some(shape@),
                            skin,
                            old(fb).pixel(x, yy),
                            x,
                            yy,
                        )
                    } else {
                        old(fb).pixel(x, yy)
                    }) by {
                        assert(before.has_pixel(x, yy));
                    }
                }
                y = y + 1;
            }
        }
        px = px + 1;
    }
}

/// The rectangle of a sprite at `pos`, or `None` when it lies outside
/// the field of view.
fn sprite_shape(
    trig: &TrigTable,
    player: &Player,
    width: u32,
    height: u32,
    pos: Vector2,
    reference: u64,
    w_num: u64,
    w_den: u64,
    w_min: u64,
    lift: i64,
    Ghost(style): Ghost<Style>,
) -> (r: Option<SpriteShape>)
    requires
        trig.wf(),
        style.reference == reference,
        style.w_num == w_num,
        style.w_den == w_den,
        style.w_min == w_min,
        reference <= 100,
        w_num <= 10,
        0 < w_den <= 10,
        2 <= w_min <= 10,
        -0x4_0000_0000 <= lift <= 0x4_0000_0000,
    ensures
        match r {
            Some(sh) => sh.bounded() && Some(sh@) == shape_of(
                trig,
                player,
                width as int,
                height as int,
                pos,
                style,
                lift as int,
            ),
            None => shape_of(trig, player, width as int, height as int, pos, style, lift as int)
                is None,
        },
{
    let dx: i64 = pos.x as i64 - player.pos.x as i64;
    let dy: i64 = pos.y as i64 - player.pos.y as i64;
    let k: usize = trig.bearing(dx, dy);
    let n: usize = trig.steps();
    let half_turn: i64 = (n / 2) as i64;
    let (_q, r) = div_floor(k as i64 - player.a as i64 + half_turn, n as u64);
    let rel: i64 = r as i64 - half_turn;
    assert(rel == relative_bearing(trig, player.a as int, dx as int, dy as int));
    let fov: i64 = player.fov as i64;
    let mag: i64 = if rel < 0 { -rel } else { rel };
    if fov <= 0 || 2 * mag > fov {
        return None;
    }
    proof {
        assert(0 <= (2 * rel + fov) * width <= (2 * fov) * width) by (nonlinear_arith)
            requires
                0 <= 2 * rel + fov <= 2 * fov,
                0 <= width,
        ;
        assert((2 * fov) * width <= 0x2_0000_0000 * 0x1_0000_0000) by (nonlinear_arith)
            requires
                0 <= 2 * fov <= 0x2_0000_0000,
                0 <= width <= 0x1_0000_0000,
        ;
        lemma_multiply_divide_le((2 * rel + fov) * width, 2 * fov, width as int);
        assert(((2 * rel + fov) * width) / (2 * fov) >= 0) by (nonlinear_arith)
            requires
                (2 * rel + fov) * width >= 0,
                fov > 0,
        ;
        assert(0 <= dx * dx <= 0x1_0000_0000 * 0x1_0000_0000) by (nonlinear_arith)
            requires
                -0x1_0000_0000 <= dx <= 0x1_0000_0000,
        ;
        assert(0 <= dy * dy <= 0x1_0000_0000 * 0x1_0000_0000) by (nonlinear_arith)
            requires
                -0x1_0000_0000 <= dy <= 0x1_0000_0000,
        ;
    }
    let num: u128 = ((2 * rel + fov) as u128) * (width as u128);
    let sx: i64 = (num / ((2 * fov) as u128)) as i64;
    let sq: u128 = ((dx as i128) * (dx as i128) + (dy as i128) * (dy as i128)) as u128;
    let d0: u64 = sqrt_floor_wide(sq);
    let dist: u64 = if d0 < 1 { 1 } else { d0 };
    proof {
        assert(0 <= height * reference <= 0xffff_ffff * 100) by (nonlinear_arith)
            requires
                0 <= height <= 0xffff_ffff,
                0 <= reference <= 100,
        ;
        assert(0 <= (height * reference) / (2 * dist) <= height * reference) by (nonlinear_arith)
            requires
                0 <= height * reference,
                dist >= 1,
        ;
    }
    let h: u64 = ((height as u64) * reference) / (2 * dist);
    proof {
        assert(0 <= h * w_num <= 0x64_0000_0000 * 10) by (nonlinear_arith)
            requires
                0 <= h <= 0x64_0000_0000,
                0 <= w_num <= 10,
        ;
        assert(0 <= (h * w_num) / (w_den as int) <= h * w_num) by (nonlinear_arith)
            requires
                0 <= h * w_num,
                w_den >= 1,
        ;
    }
    let w0: u64 = (h * w_num) / w_den;
    let w: u64 = if w0 < w_min { w_min } else { w0 };
    let half: u64 = if w / 2 < 1 { 1 } else { w / 2 };
    let top: i64 = div_trunc(height as i64 - h as i64 + 2 * lift, 2);
    let bottom: i64 = div_trunc(height as i64 + h as i64 + 2 * lift, 2);
    Some(
        SpriteShape {
            sx,
            top,
            bottom,
            last: bottom,
            w: w as i64,
            half: half as i64,
            dist,
        },
    )
}

/// The screen that `render_world` draws sprites onto: walls hide them.
pub open spec fn screen_of(sc: Scene, trig: &TrigTable) -> Screen {
    Screen {
        width: sc.width,
        height: sc.height,
        column_step: sc.column_step,
        occluding: true,
        depth: Seq::new(sc.rays() as nat, |i: int| sc.depth(trig, i)),
    }
}

/// The colour of pixel `(x, y)` of a finished frame: sky, wall or floor,
/// then the agents in their order, then the collectibles in theirs, each
/// over what was drawn before.
pub open spec fn frame_pixel(
    sc: Scene,
    textures: &TextureAtlas,
    trig: &TrigTable,
    player: &Player,
    npcs: Seq<NPC>,
    coins: Seq<Coin>,
    x: int,
    y: int,
) -> Color {
    let screen = screen_of(sc, trig);
    coins_over(
        screen,
        textures,
        trig,
        player,
        coins,
        coins.len(),
        npcs_over(
            screen,
            textures,
            trig,
            player,
            npcs,
            npcs.len(),
            sc.wall_pixel(textures, trig, x, y),
            x,
            y,
        ),
        x,
        y,
    )
}

/// Draws the viewer's view of the maze into the frame.
///
/// For each group of `column_step` columns (one column where
/// `column_step` is 0) a ray is cast; the group shows sky above the wall
/// that the ray struck, the wall's texture, and floor below. The agents
/// and the collectibles that are not yet collected are drawn over that,
/// in their order, wherever no wall hides them. Every pixel of the frame
/// is written; the drawing colour and the background stay as they were.
pub fn render_world(
    framebuffer: &mut Framebuffer,
    maze: &Maze,
    block_size: u32,
    player: &Player,
    textures: &TextureAtlas,
    npcs: &Vec<NPC>,
    coins: &Vec<Coin>,
    column_step: usize,
    doors_open: bool,
    trig: &TrigTable,
)
    requires
        old(framebuffer).wf(),
        block_size > 0,
        trig.wf(),
    ensures
        final(framebuffer).wf(),
        final(framebuffer).same_frame(old(framebuffer)),
        forall|x: int, y: int|
            final(framebuffer).has_pixel(x, y) ==> #[trigger] final(framebuffer).pixel(x, y)
                == frame_pixel(
                scene_of(
                    old(framebuffer).width,
                    old(framebuffer).height,
                    maze,
                    block_size,
                    player,
                    column_step,
                    doors_open,
                ),
                textures,
                trig,
                player,
                npcs@,
                coins@,
                x,
                y,
            ),
{
    let width: u32 = framebuffer.width;
    let height: u32 = framebuffer.height;
    let ghost sc = scene_of(width, height, maze, block_size, player, column_step, doors_open);
    let ghost screen = screen_of(sc, trig);
    let step: u64 = if column_step < 1 { 1 } else { column_step as u64 };
    let cycle: u32 = trig.steps() as u32;
    let depth: Vec<u64> = draw_walls(
        framebuffer,
        maze,
        block_size,
        player,
        textures,
        trig,
        step,
        doors_open,
        Ghost(sc),
    );
    let mut k: usize = 0;
    while k < npcs.len()
        invariant
            framebuffer.wf(),
            framebuffer.same_frame(old(framebuffer)),
            width == framebuffer.width,
            height == framebuffer.height,
            trig.wf(),
            cycle == trig.turn(),
            step >= 1,
            screen == screen_of(sc, trig),
            sc.width == width,
            sc.height == height,
            sc.column_step == step,
            depth@.len() == sc.rays(),
            forall|j: int| 0 <= j < depth@.len() ==> #[trigger] depth@[j] == sc.depth(trig, j),
            k <= npcs.len(),
            forall|x: int, y: int|
                framebuffer.has_pixel(x, y) ==> #[trigger] framebuffer.pixel(x, y) == npcs_over(
                    screen,
                    textures,
                    trig,
                    player,
                    npcs@,
                    k as nat,
                    sc.wall_pixel(textures, trig, x, y),
                    x,
                    y,
                ),
        decreases npcs.len() - k,
    {
        let shape = sprite_shape(
            trig,
            player,
            width,
            height,
            npcs[k].pos,
            WALL_HEIGHT,
            1,
            2,
            3,
            0,
            Ghost(agent_style()),
        );
        if let Some(sh) = shape {
            draw_sprite(
                framebuffer,
                textures,
                &depth,
                true,
                step,
                cycle,
                &sh,
                Skin::Agent,
                Ghost(screen),
            );
        }
        k = k + 1;
    }
    let mut c: usize = 0;
    while c < coins.len()
        invariant
            framebuffer.wf(),
            framebuffer.same_frame(old(framebuffer)),
            width == framebuffer.width,
            height == framebuffer.height,
            trig.wf(),
            cycle == trig.turn(),
            step >= 1,
            screen == screen_of(sc, trig),
            sc.width == width,
            sc.height == height,
            sc.column_step == step,
            depth@.len() == sc.rays(),
            forall|j: int| 0 <= j < depth@.len() ==> #[trigger] depth@[j] == sc.depth(trig, j),
            c <= coins.len(),
            forall|x: int, y: int|
                framebuffer.has_pixel(x, y) ==> #[trigger] framebuffer.pixel(x, y) == coins_over(
                    screen,
                    textures,
                    trig,
                    player,
                    coins@,
                    c as nat,
                    npcs_over(
                        screen,
                        textures,
                        trig,
                        player,
                        npcs@,
                        npcs@.len(),
                        sc.wall_pixel(textures, trig, x, y),
                        x,
                        y,
                    ),
                    x,
                    y,
                ),
        decreases coins.len() - c,
    {
        let coin: Coin = coins[c];
        if !coin.collected {
            let lift: i64 = CoinAnimation::get_float_offset(coin.animation_time, trig);
            let shape = sprite_shape(
                trig,
                player,
                width,
                height,
                coin.pos,
                COIN_HEIGHT,
                4,
                5,
                4,
                lift,
                Ghost(coin_style()),
            );
            if let Some(sh) = shape {
                draw_sprite(
                    framebuffer,
                    textures,
                    &depth,
                    true,
                    step,
                    cycle,
                    &sh,
                    Skin::Collectible { phase: coin.animation_time },
                    Ghost(screen),
                );
            }
        }
        c = c + 1;
    }
}

/// Where a wall is nearer than a sprite, or farther by less than
/// `DEPTH_TOLERANCE`, the sprite writes no pixel of that column.
pub proof fn lemma_wall_hides_sprite(
    screen: Screen,
    textures: &TextureAtlas,
    cycle: int,
    shape: Shape,
    skin: Skin,
    under: Color,
    x: int,
    y: int,
)
    requires
        screen.occluding,
        0 <= x / screen.column_step < screen.depth.len(),
        shape.dist + DEPTH_TOLERANCE > screen.depth[x / screen.column_step],
    ensures
        screen.sprite_writes(textures, cycle, shape, skin, x, y) is None,
        screen.sprite_over(textures, cycle, Some(shape), skin, under, x, y) == under,
{
}

/// Collectibles that have all been collected leave the frame as it was.
pub proof fn lemma_collected_coins_not_drawn(
    screen: Screen,
    textures: &TextureAtlas,
    trig: &TrigTable,
    player: &Player,
    coins: Seq<Coin>,
    n: nat,
    base: Color,
    x: int,
    y: int,
)
    requires
        n <= coins.len(),
        forall|k: int| 0 <= k < n ==> (#[trigger] coins[k]).collected,
    ensures
        coins_over(screen, textures, trig, player, coins, n, base, x, y) == base,
    decreases n,
{
    if n > 0 {
        assert(coins[n - 1].collected);
        lemma_collected_coins_not_drawn(
            screen,
            textures,
            trig,
            player,
            coins,
            (n - 1) as nat,
            base,
            x,
            y,
        );
    }
}

/// A collected collectible is never drawn: with it or without it the
/// pixels come out the same.
pub proof fn lemma_collected_coin_not_drawn(
    screen: Screen,
    textures: &TextureAtlas,
    trig: &TrigTable,
    player: &Player,
    coins: Seq<Coin>,
    n: nat,
    base: Color,
    x: int,
    y: int,
)
    requires
        0 < n <= coins.len(),
        coins[n - 1].collected,
    ensures
        coins_over(screen, textures, trig, player, coins, n, base, x, y) == coins_over(
            screen,
            textures,
            trig,
            player,
            coins,
            (n - 1) as nat,
            base,
            x,
            y,
        ),
{
}

/// The rectangle of an agent as `render_npcs` draws it: at least six
/// columns wide, and without its last row.
pub open spec fn flat_shape(trig: &TrigTable, player: &Player, width: int, height: int, npc: NPC) -> Option<
    Shape,
> {
    match shape_of(trig, player, width, height, npc.pos, flat_agent_style(), 0) {
        Some(sh) => Some(Shape { last: sh.bottom - 1, ..sh }),
        None => None,
    }
}

/// The screen that `render_npcs` draws onto: no wall hides anything.
pub open spec fn open_screen(width: int, height: int) -> Screen {
    Screen { width, height, column_step: 1, occluding: false, depth: Seq::empty() }
}

/// The colour of pixel `(x, y)` once `render_npcs` has drawn the first
/// `n` agents over `base`.
pub open spec fn flat_npcs_over(
    screen: Screen,
    textures: &TextureAtlas,
    trig: &TrigTable,
    player: &Player,
    npcs: Seq<NPC>,
    n: nat,
    base: Color,
    x: int,
    y: int,
) -> Color
    decreases n,
{
    if n == 0 {
        base
    } else {
        screen.sprite_over(
            textures,
            trig.turn(),
            flat_shape(trig, player, screen.width, screen.height, npcs[n - 1]),
            Skin::AgentOrRed,
            flat_npcs_over(screen, textures, trig, player, npcs, (n - 1) as nat, base, x, y),
            x,
            y,
        )
    }
}

/// Draws the agents over what the frame holds, whether or not a wall
/// stands before them. An agent is drawn red where there is no sprite to
/// sample.
pub fn render_npcs(
    framebuffer: &mut Framebuffer,
    textures: &TextureAtlas,
    player: &Player,
    npcs: &Vec<NPC>,
    trig: &TrigTable,
)
    requires
        old(framebuffer).wf(),
        trig.wf(),
    ensures
        final(framebuffer).wf(),
        final(framebuffer).same_frame(old(framebuffer)),
        forall|x: int, y: int|
            final(framebuffer).has_pixel(x, y) ==> #[trigger] final(framebuffer).pixel(x, y)
                == flat_npcs_over(
                open_screen(old(framebuffer).width as int, old(framebuffer).height as int),
                textures,
                trig,
                player,
                npcs@,
                npcs@.len(),
                old(framebuffer).pixel(x, y),
                x,
                y,
            ),
{
    let width: u32 = framebuffer.width;
    let height: u32 = framebuffer.height;
    let ghost screen = open_screen(width as int, height as int);
    let cycle: u32 = trig.steps() as u32;
    let depth: Vec<u64> = Vec::new();
    let mut k: usize = 0;
    while k < npcs.len()
        invariant
            framebuffer.wf(),
            framebuffer.same_frame(old(framebuffer)),
            width == framebuffer.width,
            height == framebuffer.height,
            trig.wf(),
            cycle == trig.turn(),
            screen == open_screen(width as int, height as int),
            k <= npcs.len(),
            forall|x: int, y: int|
                framebuffer.has_pixel(x, y) ==> #[trigger] framebuffer.pixel(x, y)
                    == flat_npcs_over(
                    screen,
                    textures,
                    trig,
                    player,
                    npcs@,
                    k as nat,
                    old(framebuffer).pixel(x, y),
                    x,
                    y,
                ),
        decreases npcs.len() - k,
    {
        let shape = sprite_shape(
            trig,
            player,
            width,
            height,
            npcs[k].pos,
            WALL_HEIGHT,
            1,
            2,
            6,
            0,
            Ghost(flat_agent_style()),
        );
        if let Some(sh) = shape {
            let flat = SpriteShape {
                sx: sh.sx,
                top: sh.top,
                bottom: sh.bottom,
                last: sh.bottom - 1,
                w: sh.w,
                half: sh.half,
                dist: sh.dist,
            };
            draw_sprite(
                framebuffer,
                textures,
                &depth,
                false,
                1,
                cycle,
                &flat,
                Skin::AgentOrRed,
                Ghost(screen),
            );
        }
        k = k + 1;
    }
}

/// The colour of a cell in the view from above.
pub open spec fn cell_color(c: char) -> Color {
    if c == '+' {
        Color { r: 138, g: 43, b: 226, a: 255 }
    } else if c == '-' || c == '|' {
        Color { r: 238, g: 130, b: 238, a: 255 }
    } else if c == 'g' {
        Color { r: 0, g: 128, b: 0, a: 255 }
    } else {
        Color { r: 255, g: 255, b: 255, a: 255 }
    }
}

/// Whether a cell shows in the view from above: open floor and a
/// collectible's cell do not.
pub open spec fn cell_shows(c: char) -> bool {
    c != ' ' && c != 'C'
}

/// The view from above over `under`: each cell that shows is a block of
/// `block_size` by `block_size` pixels in the colour of its symbol.
pub open spec fn plan_pixel(g: Grid, block_size: int, under: Color, px: int, py: int) -> Color {
    if cell_in_bounds(g, px / block_size, py / block_size) && cell_shows(
        g[py / block_size][px / block_size],
    ) {
        cell_color(g[py / block_size][px / block_size])
    } else {
        under
    }
}

/// Whether the cell under pixel `(px, py)` is drawn before cell
/// `(rx, ry)`: cells are drawn row by row.
spec fn plan_done(g: Grid, block_size: int, px: int, py: int, rx: int, ry: int) -> bool {
    cell_in_bounds(g, px / block_size, py / block_size) && (py / block_size < ry || (py
        / block_size == ry && px / block_size < rx))
}

/// The colour of a cell in the view from above.
pub fn cell_to_color(cell: char) -> (c: Color)
    ensures
        c == cell_color(cell),
{
    if cell == '+' {
        Color { r: 138, g: 43, b: 226, a: 255 }
    } else if cell == '-' || cell == '|' {
        Color { r: 238, g: 130, b: 238, a: 255 }
    } else if cell == 'g' {
        Color { r: 0, g: 128, b: 0, a: 255 }
    } else {
        Color { r: 255, g: 255, b: 255, a: 255 }
    }
}

/// Draws the block of a cell whose first pixel is `(xo, yo)`, unless the
/// cell does not show.
pub fn draw_cell(framebuffer: &mut Framebuffer, xo: usize, yo: usize, block_size: u32, cell: char)
    requires
        old(framebuffer).wf(),
    ensures
        final(framebuffer).wf(),
        final(framebuffer).same_frame(old(framebuffer)),
        forall|px: int, py: int|
            final(framebuffer).has_pixel(px, py) ==> #[trigger] final(framebuffer).pixel(px, py)
                == (if cell_shows(cell) && crate::framebuffer::in_rect(
                px,
                py,
                xo as int,
                yo as int,
                block_size as int,
                block_size as int,
            ) {
                cell_color(cell)
            } else {
                old(framebuffer).pixel(px, py)
            }),
{
    if cell == ' ' || cell == 'C' {
        return;
    }
    framebuffer.fill_rect(
        xo as i128,
        yo as i128,
        block_size as u128,
        block_size as u128,
        cell_to_color(cell),
    );
}

/// Draws the maze from above: every cell that shows as a block of
/// `block_size` by `block_size` pixels, the first cell in the frame's
/// first corner.
pub fn render_maze(framebuffer: &mut Framebuffer, maze: &Maze, block_size: u32)
    requires
        old(framebuffer).wf(),
        block_size > 0,
    ensures
        final(framebuffer).wf(),
        final(framebuffer).same_frame(old(framebuffer)),
        forall|px: int, py: int|
            final(framebuffer).has_pixel(px, py) ==> #[trigger] final(framebuffer).pixel(px, py)
                == plan_pixel(grid_of(maze), block_size as int, old(framebuffer).pixel(px, py), px, py),
{
    let ghost g = grid_of(maze);
    let ghost b = block_size as int;
    let limit: u128 = 0x1_0000_0000;
    let mut ry: usize = 0;
    while ry < maze.len()
        invariant
            framebuffer.wf(),
            framebuffer.same_frame(old(framebuffer)),
            g == grid_of(maze),
            b == block_size,
            b > 0,
            limit == 0x1_0000_0000,
            ry <= maze.len(),
            forall|px: int, py: int|
                framebuffer.has_pixel(px, py) ==> #[trigger] framebuffer.pixel(px, py) == (
                if plan_done(g, b, px, py, 0, ry as int) {
                    plan_pixel(g, b, old(framebuffer).pixel(px, py), px, py)
                } else {
                    old(framebuffer).pixel(px, py)
                }),
        decreases maze.len() - ry,
    {
        proof {
            vstd::arithmetic::mul::lemma_mul_upper_bound(
                ry as int,
                0xffff_ffff_ffff_ffff,
                b,
                0xffff_ffff,
            );
            assert(0 <= ry * b) by (nonlinear_arith)
                requires
                    ry >= 0,
                    b >= 0,
            ;
        }
        let yoff: u128 = (ry as u128) * (block_size as u128);
        let mut rx: usize = 0;
        while rx < maze[ry].len()
            invariant
                framebuffer.wf(),
                framebuffer.same_frame(old(framebuffer)),
                g == grid_of(maze),
                b == block_size,
                b > 0,
                limit == 0x1_0000_0000,
                ry < maze.len(),
                yoff == ry * b,
                rx <= maze@[ry as int]@.len(),
                forall|px: int, py: int|
                    framebuffer.has_pixel(px, py) ==> #[trigger] framebuffer.pixel(px, py) == (
                    if plan_done(g, b, px, py, rx as int, ry as int) {
                        plan_pixel(g, b, old(framebuffer).pixel(px, py), px, py)
                    } else {
                        old(framebuffer).pixel(px, py)
                    }),
            decreases maze@[ry as int]@.len() - rx,
        {
            proof {
                vstd::arithmetic::mul::lemma_mul_upper_bound(
                    rx as int,
                    0xffff_ffff_ffff_ffff,
                    b,
                    0xffff_ffff,
                );
                assert(0 <= rx * b) by (nonlinear_arith)
                    requires
                        rx >= 0,
                        b >= 0,
                ;
                assert(cell_in_bounds(g, rx as int, ry as int));
                lemma_grid_cell(maze, rx as int, ry as int);
            }
            let xoff: u128 = (rx as u128) * (block_size as u128);
            let ghost before = *framebuffer;
            if xoff < limit && yoff < limit {
                draw_cell(framebuffer, xoff as usize, yoff as usize, block_size, maze[ry][rx]);
            }
            proof {
                assert forall|px: int, py: int| framebuffer.has_pixel(px, py) implies #[trigger] framebuffer.pixel(
                    px,
                    py,
                ) == (if plan_done(g, b, px, py, rx + 1, ry as int) {
                    plan_pixel(g, b, old(framebuffer).pixel(px, py), px, py)
                } else {
                    old(framebuffer).pixel(px, py)
                }) by {
                    assert(before.has_pixel(px, py));
                    lemma_group(px, b, rx as int);
                    lemma_group(py, b, ry as int);
                }
            }
            rx = rx + 1;
        }
        proof {
            assert forall|px: int, py: int| framebuffer.has_pixel(px, py) implies #[trigger] framebuffer.pixel(
                px,
                py,
            ) == (if plan_done(g, b, px, py, 0, ry + 1) {
                plan_pixel(g, b, old(framebuffer).pixel(px, py), px, py)
            } else {
                old(framebuffer).pixel(px, py)
            }) by {}
        }
        ry = ry + 1;
    }
}

} // verus!
