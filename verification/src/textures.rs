//! Textures and how they are sampled.
//!
//! A texture coordinate is a fraction of the texture's width or height,
//! counted in `UV_ONE`-ths. Coordinates wrap: a texture repeats.

use vstd::prelude::*;
use crate::anim::{frame_at, CoinAnimation, COIN_FRAMES};
use crate::framebuffer::Color;
use crate::maze::chars_of;

verus! {

/// The texture coordinate that stands for one whole texture.
pub const UV_ONE: u32 = 65536;

/// The surfaces that walls are drawn with.
#[derive(Clone, Copy, Debug, PartialEq, Eq, Structural)]
pub enum TextureKind {
    Wall,
    Pillar,
    DoorClosed,
    DoorOpen,
}

/// A decoded image: `w * h` pixels of four bytes each (red, green, blue,
/// opacity), row by row.
pub struct ImageBuf {
    pub w: u32,
    pub h: u32,
    pub data: Vec<u8>,
}

/// The textures of the game. One that could not be loaded is `None`, and
/// a pattern stands in for it.
pub struct TextureAtlas {
    pub wall: Option<ImageBuf>,
    pub pillar: Option<ImageBuf>,
    pub npc: Option<ImageBuf>,
    pub sky: Option<ImageBuf>,
    pub floor: Option<ImageBuf>,
    pub menu: Option<ImageBuf>,
    pub game_over: Option<ImageBuf>,
    pub coin: Option<ImageBuf>,
    pub door_closed: Option<ImageBuf>,
    pub door_open: Option<ImageBuf>,
}

/// A coordinate brought into one texture: its fraction.
pub open spec fn wrap_uv(u: int) -> int {
    u % (UV_ONE as int)
}

/// The pixel column (or row) that a wrapped coordinate falls on in a
/// texture `size` pixels wide (or high).
pub open spec fn nearest_coord(u: int, size: int) -> int {
    (u * size) / (UV_ONE as int)
}

/// The colour of a chessboard with `checks` fields each way: `even`
/// where the field's column and row add up to an even number.
pub open spec fn chessboard(u: int, v: int, checks: int, even: Color, odd: Color) -> Color {
    if ((u * checks) / (UV_ONE as int) + (v * checks) / (UV_ONE as int)) % 2 == 0 {
        even
    } else {
        odd
    }
}

/// A channel between `top` at `v == 0` and `bottom` at `v == UV_ONE`.
pub open spec fn mix_channel(top: int, bottom: int, v: int) -> int {
    (top * (UV_ONE - v) + bottom * v) / (UV_ONE as int)
}

/// The opaque colour between `top` and `bottom` at height `v`.
pub open spec fn gradient(top: Color, bottom: Color, v: int) -> Color {
    Color {
        r: mix_channel(top.r as int, bottom.r as int, v) as u8,
        g: mix_channel(top.g as int, bottom.g as int, v) as u8,
        b: mix_channel(top.b as int, bottom.b as int, v) as u8,
        a: 255,
    }
}

/// One channel of four neighbouring pixels, weighted by how far the
/// sample lies from each: across by `sx`, down by `sy`.
pub open spec fn blend(c00: int, c10: int, c01: int, c11: int, sx: int, sy: int) -> int {
    ((c00 * (UV_ONE - sx) + c10 * sx) * (UV_ONE - sy) + (c01 * (UV_ONE - sx) + c11 * sx) * sy) / (
    UV_ONE * UV_ONE)
}

/// A colour whose opacity is full where the source had none at all.
pub open spec fn opaque_if_clear(c: Color) -> Color {
    if c.a == 0 {
        Color { a: 255, ..c }
    } else {
        c
    }
}

/// The two colours of the pattern that stands in for a wall.
pub open spec fn wall_pattern_even() -> Color {
    Color { r: 200, g: 180, b: 160, a: 255 }
}

pub open spec fn wall_pattern_odd() -> Color {
    Color { r: 140, g: 120, b: 100, a: 255 }
}

/// The two colours of the pattern that stands in for the floor.
pub open spec fn floor_pattern_even() -> Color {
    Color { r: 120, g: 90, b: 60, a: 255 }
}

pub open spec fn floor_pattern_odd() -> Color {
    Color { r: 100, g: 80, b: 60, a: 255 }
}

/// The colours between which the sky's gradient runs.
pub open spec fn sky_top() -> Color {
    Color { r: 80, g: 160, b: 240, a: 255 }
}

pub open spec fn sky_bottom() -> Color {
    Color { r: 160, g: 200, b: 240, a: 255 }
}

/// The colours between which the menu's gradient runs.
pub open spec fn menu_top() -> Color {
    Color { r: 30, g: 20, b: 10, a: 255 }
}

pub open spec fn menu_bottom() -> Color {
    Color { r: 10, g: 10, b: 10, a: 255 }
}

/// The colours between which the closing screen's gradient runs.
pub open spec fn gameover_top() -> Color {
    Color { r: 80, g: 10, b: 10, a: 255 }
}

pub open spec fn gameover_bottom() -> Color {
    Color { r: 20, g: 10, b: 10, a: 255 }
}

impl ImageBuf {
    /// Where the four bytes of pixel `(x, y)` begin.
    pub open spec fn offset(&self, x: int, y: int) -> int {
        (y * self.w + x) * 4
    }

    /// Whether the data holds all four bytes of pixel `(x, y)`.
    pub open spec fn has_texel(&self, x: int, y: int) -> bool {
        self.offset(x, y) + 3 < self.data@.len()
    }

    /// The colour of pixel `(x, y)`.
    pub open spec fn texel(&self, x: int, y: int) -> Color {
        let i = self.offset(x, y);
        Color { r: self.data@[i], g: self.data@[i + 1], b: self.data@[i + 2], a: self.data@[i + 3] }
    }

    /// Whether there is anything to sample: a width, a height and at
    /// least one pixel's worth of data.
    pub open spec fn usable(&self) -> bool {
        self.data@.len() >= 4 && self.w > 0 && self.h > 0
    }

    /// The pixel nearest to `(u, v)`, both already wrapped; `None` where
    /// the data does not reach.
    pub open spec fn nearest(&self, u: int, v: int) -> Option<Color> {
        let x = nearest_coord(u, self.w as int);
        let y = nearest_coord(v, self.h as int);
        if self.usable() && self.has_texel(x, y) {
            Some(self.texel(x, y))
        } else {
            None
        }
    }

    /// Pixel `(x, y)` as walls see it: never fully clear, and black where
    /// the data does not reach.
    pub open spec fn wall_texel(&self, x: int, y: int) -> Color {
        if self.has_texel(x, y) {
            opaque_if_clear(self.texel(x, y))
        } else {
            Color { r: 0, g: 0, b: 0, a: 255 }
        }
    }

    /// The colour at `(u, v)`, both already wrapped, blended from the four
    /// pixels around it. The coordinates span the texture from its first
    /// pixel to its last.
    pub open spec fn bilinear(&self, u: int, v: int) -> Color {
        let xf = u * (self.w - 1);
        let yf = v * (self.h - 1);
        let x0 = xf / (UV_ONE as int);
        let y0 = yf / (UV_ONE as int);
        let x1 = if x0 + 1 < self.w { x0 + 1 } else { self.w - 1 };
        let y1 = if y0 + 1 < self.h { y0 + 1 } else { self.h - 1 };
        let sx = xf % (UV_ONE as int);
        let sy = yf % (UV_ONE as int);
        let c00 = self.wall_texel(x0, y0);
        let c10 = self.wall_texel(x1, y0);
        let c01 = self.wall_texel(x0, y1);
        let c11 = self.wall_texel(x1, y1);
        Color {
            r: blend(c00.r as int, c10.r as int, c01.r as int, c11.r as int, sx, sy) as u8,
            g: blend(c00.g as int, c10.g as int, c01.g as int, c11.g as int, sx, sy) as u8,
            b: blend(c00.b as int, c10.b as int, c01.b as int, c11.b as int, sx, sy) as u8,
            a: blend(c00.a as int, c10.a as int, c01.a as int, c11.a as int, sx, sy) as u8,
        }
    }

    /// The colour of pixel `(x, y)`, or `None` where the data does not
    /// reach.
    pub fn get_texel(&self, x: u32, y: u32) -> (c: Option<Color>)
        ensures
            c == (if self.has_texel(x as int, y as int) {
                Some(self.texel(x as int, y as int))
            } else {
                None
            }),
    {
        proof {
            assert(0 <= y * self.w <= 0xffff_ffff * 0xffff_ffff) by (nonlinear_arith)
                requires
                    0 <= y <= 0xffff_ffff,
                    0 <= self.w <= 0xffff_ffff,
            ;
        }
        let at: u128 = ((y as u128) * (self.w as u128) + (x as u128)) * 4;
        if at + 3 < self.data.len() as u128 {
            let i: usize = at as usize;
            Some(Color { r: self.data[i], g: self.data[i + 1], b: self.data[i + 2], a: self.data[i + 3] })
        } else {
            None
        }
    }
}

/// A wrapped coordinate.
fn wrapped(u: u32) -> (r: u32)
    ensures
        r == wrap_uv(u as int),
        r < UV_ONE,
{
    u % UV_ONE
}

/// The pixel column (or row) of a wrapped coordinate.
fn coord_in(u: u32, size: u32) -> (x: u32)
    requires
        u < UV_ONE,
    ensures
        x == nearest_coord(u as int, size as int),
        size > 0 ==> x < size,
{
    proof {
        assert(0 <= u * size <= 0xffff * 0xffff_ffff) by (nonlinear_arith)
            requires
                0 <= u <= 0xffff,
                0 <= size <= 0xffff_ffff,
        ;
        if size > 0 {
            assert(u * size < 65536 * size) by (nonlinear_arith)
                requires
                    0 <= u < 65536,
                    size > 0,
            ;
            vstd::arithmetic::div_mod::lemma_multiply_divide_lt(
                u * size,
                65536,
                size as int,
            );
        }
        assert((u * size) / 65536 <= u * size) by (nonlinear_arith)
            requires
                0 <= u * size,
        ;
    }
    (((u as u64) * (size as u64)) / (UV_ONE as u64)) as u32
}

/// The pixel of `img` nearest to `(u, v)`, both already wrapped.
fn nearest_in(img: &ImageBuf, u: u32, v: u32) -> (c: Option<Color>)
    requires
        u < UV_ONE,
        v < UV_ONE,
    ensures
        c == img.nearest(u as int, v as int),
{
    if img.data.len() >= 4 && img.w > 0 && img.h > 0 {
        let x: u32 = coord_in(u, img.w);
        let y: u32 = coord_in(v, img.h);
        img.get_texel(x, y)
    } else {
        None
    }
}

/// The pixel of a texture nearest to `(u, v)`, both already wrapped;
/// `None` where the texture is missing or its data does not reach.
pub open spec fn nearest_of(tex: Option<ImageBuf>, u: int, v: int) -> Option<Color> {
    match tex {
        Some(img) => img.nearest(u, v),
        None => None,
    }
}

/// The pixel of a texture nearest to `(u, v)`, both already wrapped.
fn nearest_at(tex: &Option<ImageBuf>, u: u32, v: u32) -> (c: Option<Color>)
    requires
        u < UV_ONE,
        v < UV_ONE,
    ensures
        c == nearest_of(*tex, u as int, v as int),
{
    match tex {
        Some(img) => nearest_in(img, u, v),
        None => None,
    }
}

/// The field of a chessboard that a wrapped coordinate pair falls on.
fn chessboard_at(u: u32, v: u32, checks: u32, even: Color, odd: Color) -> (c: Color)
    requires
        u < UV_ONE,
        v < UV_ONE,
        checks <= 16,
    ensures
        c == chessboard(u as int, v as int, checks as int, even, odd),
{
    proof {
        assert(0 <= u * checks <= 65535 * 16) by (nonlinear_arith)
            requires
                0 <= u <= 65535,
                0 <= checks <= 16,
        ;
        assert(0 <= v * checks <= 65535 * 16) by (nonlinear_arith)
            requires
                0 <= v <= 65535,
                0 <= checks <= 16,
        ;
    }
    let uu: u32 = (u * checks) / UV_ONE;
    let vv: u32 = (v * checks) / UV_ONE;
    if (uu + vv) % 2 == 0 {
        even
    } else {
        odd
    }
}

/// One channel between `top` and `bottom` at height `v`.
fn mix_at(top: u8, bottom: u8, v: u32) -> (m: u8)
    requires
        v < UV_ONE,
    ensures
        m == mix_channel(top as int, bottom as int, v as int),
{
    proof {
        assert(top * (65536 - v) + bottom * v <= 255 * (65536 - v) + 255 * v) by (nonlinear_arith)
            requires
                0 <= top <= 255,
                0 <= bottom <= 255,
                0 <= v < 65536,
        ;
        assert(0 <= top * (65536 - v) + bottom * v) by (nonlinear_arith)
            requires
                0 <= top <= 255,
                0 <= bottom <= 255,
                0 <= v < 65536,
        ;
        assert(0 <= top * (65536 - v) <= 255 * 65536) by (nonlinear_arith)
            requires
                0 <= top <= 255,
                0 <= v < 65536,
        ;
        assert(0 <= bottom * v <= 255 * 65536) by (nonlinear_arith)
            requires
                0 <= bottom <= 255,
                0 <= v < 65536,
        ;
    }
    let sum: u32 = (top as u32) * (UV_ONE - v) + (bottom as u32) * v;
    (sum / UV_ONE) as u8
}

/// The opaque colour between `top` and `bottom` at height `v`.
fn gradient_at(top: Color, bottom: Color, v: u32) -> (c: Color)
    requires
        v < UV_ONE,
    ensures
        c == gradient(top, bottom, v as int),
{
    Color {
        r: mix_at(top.r, bottom.r, v),
        g: mix_at(top.g, bottom.g, v),
        b: mix_at(top.b, bottom.b, v),
        a: 255,
    }
}

/// One channel blended from four neighbouring pixels.
fn blend_at(c00: u8, c10: u8, c01: u8, c11: u8, sx: u32, sy: u32) -> (c: u8)
    requires
        sx < UV_ONE,
        sy < UV_ONE,
    ensures
        c == blend(c00 as int, c10 as int, c01 as int, c11 as int, sx as int, sy as int),
{
    let one: u64 = UV_ONE as u64;
    proof {
        assert(0 <= c00 * (65536 - sx) + c10 * sx <= 255 * 65536) by (nonlinear_arith)
            requires
                0 <= c00 <= 255,
                0 <= c10 <= 255,
                0 <= sx < 65536,
        ;
        assert(0 <= c01 * (65536 - sx) + c11 * sx <= 255 * 65536) by (nonlinear_arith)
            requires
                0 <= c01 <= 255,
                0 <= c11 <= 255,
                0 <= sx < 65536,
        ;
        assert(0 <= c00 * (65536 - sx) <= 255 * 65536) by (nonlinear_arith)
            requires
                0 <= c00 <= 255,
                0 <= sx < 65536,
        ;
        assert(0 <= c01 * (65536 - sx) <= 255 * 65536) by (nonlinear_arith)
            requires
                0 <= c01 <= 255,
                0 <= sx < 65536,
        ;
    }
    let top: u64 = (c00 as u64) * (one - sx as u64) + (c10 as u64) * (sx as u64);
    let bottom: u64 = (c01 as u64) * (one - sx as u64) + (c11 as u64) * (sx as u64);
    proof {
        assert(0 <= top * (65536 - sy) + bottom * sy <= 255 * 65536 * 65536) by (nonlinear_arith)
            requires
                0 <= top <= 255 * 65536,
                0 <= bottom <= 255 * 65536,
                0 <= sy < 65536,
        ;
        assert(0 <= top * (65536 - sy) <= 255 * 65536 * 65536) by (nonlinear_arith)
            requires
                0 <= top <= 255 * 65536,
                0 <= sy < 65536,
        ;
        assert(0 <= bottom * sy <= 255 * 65536 * 65536) by (nonlinear_arith)
            requires
                0 <= bottom <= 255 * 65536,
                0 <= sy < 65536,
        ;
        assert(UV_ONE * UV_ONE == 0x1_0000_0000) by (nonlinear_arith);
    }
    let sum: u64 = top * (one - sy as u64) + bottom * (sy as u64);
    let whole: u64 = 0x1_0000_0000;
    (sum / whole) as u8
}

/// A colour whose opacity is full where the source had none at all.
fn opaque(c: Color) -> (r: Color)
    ensures
        r == opaque_if_clear(c),
{
    if c.a == 0 {
        Color { r: c.r, g: c.g, b: c.b, a: 255 }
    } else {
        c
    }
}

/// A pixel as walls see it.
fn wall_texel_at(img: &ImageBuf, x: u32, y: u32) -> (c: Color)
    ensures
        c == img.wall_texel(x as int, y as int),
{
    match img.get_texel(x, y) {
        Some(c) => opaque(c),
        None => Color { r: 0, g: 0, b: 0, a: 255 },
    }
}

/// The colour of `img` at `(u, v)`, both already wrapped, blended from
/// the four pixels around it.
fn bilinear_in(img: &ImageBuf, u: u32, v: u32) -> (c: Color)
    requires
        u < UV_ONE,
        v < UV_ONE,
        img.w > 0,
        img.h > 0,
    ensures
        c == img.bilinear(u as int, v as int),
{
    proof {
        assert(0 <= u * (img.w - 1) < 65536 * (img.w - 1) + 1) by (nonlinear_arith)
            requires
                0 <= u < 65536,
                img.w > 0,
        ;
        assert(0 <= v * (img.h - 1) < 65536 * (img.h - 1) + 1) by (nonlinear_arith)
            requires
                0 <= v < 65536,
                img.h > 0,
        ;
        vstd::arithmetic::div_mod::lemma_multiply_divide_le(
            u * (img.w - 1),
            65536,
            img.w - 1,
        );
        vstd::arithmetic::div_mod::lemma_multiply_divide_le(
            v * (img.h - 1),
            65536,
            img.h - 1,
        );
        assert((u * (img.w - 1)) / 65536 >= 0) by (nonlinear_arith)
            requires
                0 <= u * (img.w - 1),
        ;
        assert((v * (img.h - 1)) / 65536 >= 0) by (nonlinear_arith)
            requires
                0 <= v * (img.h - 1),
        ;
    }
    let one: u64 = UV_ONE as u64;
    let xf: u64 = (u as u64) * ((img.w - 1) as u64);
    let yf: u64 = (v as u64) * ((img.h - 1) as u64);
    let x0: u32 = (xf / one) as u32;
    let y0: u32 = (yf / one) as u32;
    let x1: u32 = if x0 + 1 < img.w { x0 + 1 } else { img.w - 1 };
    let y1: u32 = if y0 + 1 < img.h { y0 + 1 } else { img.h - 1 };
    let sx: u32 = (xf % one) as u32;
    let sy: u32 = (yf % one) as u32;
    let c00 = wall_texel_at(img, x0, y0);
    let c10 = wall_texel_at(img, x1, y0);
    let c01 = wall_texel_at(img, x0, y1);
    let c11 = wall_texel_at(img, x1, y1);
    Color {
        r: blend_at(c00.r, c10.r, c01.r, c11.r, sx, sy),
        g: blend_at(c00.g, c10.g, c01.g, c11.g, sx, sy),
        b: blend_at(c00.b, c10.b, c01.b, c11.b, sx, sy),
        a: blend_at(c00.a, c10.a, c01.a, c11.a, sx, sy),
    }
}

impl TextureAtlas {
    /// The texture of a kind of wall.
    pub open spec fn texture(&self, kind: TextureKind) -> Option<ImageBuf> {
        match kind {
            TextureKind::Wall => self.wall,
            TextureKind::Pillar => self.pillar,
            TextureKind::DoorClosed => self.door_closed,
            TextureKind::DoorOpen => self.door_open,
        }
    }

    /// What `sample` returns. Where the texture is missing or empty, or
    /// the blended colour comes out pure black, the wall pattern stands
    /// in: a chessboard of eight fields each way.
    pub open spec fn sample_spec(&self, kind: TextureKind, u: int, v: int) -> Color {
        let u = wrap_uv(u);
        let v = wrap_uv(v);
        let pattern = chessboard(u, v, 8, wall_pattern_even(), wall_pattern_odd());
        match self.texture(kind) {
            Some(img) => {
                if img.usable() {
                    let c = img.bilinear(u, v);
                    if c.r == 0 && c.g == 0 && c.b == 0 {
                        pattern
                    } else {
                        c
                    }
                } else {
                    pattern
                }
            },
            None => pattern,
        }
    }

    /// What `sample_sky` returns: the sky texture, never fully clear, or
    /// a gradient from top to bottom.
    pub open spec fn sky_spec(&self, u: int, v: int) -> Color {
        match nearest_of(self.sky, wrap_uv(u), wrap_uv(v)) {
            Some(c) => opaque_if_clear(c),
            None => gradient(sky_top(), sky_bottom(), wrap_uv(v)),
        }
    }

    /// What `sample_floor` returns: the floor texture, never fully clear,
    /// or a chessboard of six fields each way.
    pub open spec fn floor_spec(&self, u: int, v: int) -> Color {
        match nearest_of(self.floor, wrap_uv(u), wrap_uv(v)) {
            Some(c) => opaque_if_clear(c),
            None => chessboard(wrap_uv(u), wrap_uv(v), 6, floor_pattern_even(), floor_pattern_odd()),
        }
    }

    /// What `sample_menu` returns: the menu picture, or a dark gradient.
    pub open spec fn menu_spec(&self, u: int, v: int) -> Color {
        match nearest_of(self.menu, wrap_uv(u), wrap_uv(v)) {
            Some(c) => c,
            None => gradient(menu_top(), menu_bottom(), wrap_uv(v)),
        }
    }

    /// What `sample_gameover` returns: the picture, or a red gradient.
    pub open spec fn gameover_spec(&self, u: int, v: int) -> Color {
        match nearest_of(self.game_over, wrap_uv(u), wrap_uv(v)) {
            Some(c) => c,
            None => gradient(gameover_top(), gameover_bottom(), wrap_uv(v)),
        }
    }

    /// What `sample_npc` returns: the agent's sprite with its own
    /// opacity, or `None` without one.
    pub open spec fn npc_spec(&self, u: int, v: int) -> Option<Color> {
        nearest_of(self.npc, wrap_uv(u), wrap_uv(v))
    }

    /// What `sample_coin` returns: the pixel of the frame that shows at
    /// the phase `animation_time` of a cycle of `cycle` steps. The sheet
    /// holds `COIN_FRAMES` frames side by side.
    pub open spec fn coin_spec(&self, u: int, v: int, animation_time: int, cycle: int) -> Option<
        Color,
    > {
        match self.coin {
            Some(img) => {
                let frame_width = img.w as int / COIN_FRAMES as int;
                let x = nearest_coord(wrap_uv(u), frame_width) + frame_at(animation_time, cycle)
                    * frame_width;
                let y = nearest_coord(wrap_uv(v), img.h as int);
                if img.data@.len() >= 4 && frame_width > 0 && img.h > 0 && img.has_texel(x, y) {
                    Some(img.texel(x, y))
                } else {
                    None
                }
            },
            None => None,
        }
    }

    /// An atlas without any texture: every sample falls back to its
    /// pattern.
    pub fn empty() -> (atlas: TextureAtlas)
        ensures
            atlas.wall is None,
            atlas.pillar is None,
            atlas.npc is None,
            atlas.sky is None,
            atlas.floor is None,
            atlas.menu is None,
            atlas.game_over is None,
            atlas.coin is None,
            atlas.door_closed is None,
            atlas.door_open is None,
    {
        TextureAtlas {
            wall: None,
            pillar: None,
            npc: None,
            sky: None,
            floor: None,
            menu: None,
            game_over: None,
            coin: None,
            door_closed: None,
            door_open: None,
        }
    }

    /// The height in pixels of a wall texture; 32 for a missing one.
    pub fn texture_height(&self, kind: TextureKind) -> (h: u32)
        ensures
            h == (match self.texture(kind) {
                Some(img) => img.h,
                None => 32u32,
            }),
    {
        let tex = match kind {
            TextureKind::Wall => &self.wall,
            TextureKind::Pillar => &self.pillar,
            TextureKind::DoorClosed => &self.door_closed,
            TextureKind::DoorOpen => &self.door_open,
        };
        match tex {
            Some(img) => img.h,
            None => 32,
        }
    }

    /// The colour of a wall texture at `(u, v)`, blended from the four
    /// pixels around the sample. A source pixel without any opacity
    /// counts as opaque.
    pub fn sample(&self, kind: TextureKind, u: u32, v: u32) -> (c: Color)
        ensures
            c == self.sample_spec(kind, u as int, v as int),
    {
        let u: u32 = wrapped(u);
        let v: u32 = wrapped(v);
        let tex = match kind {
            TextureKind::Wall => &self.wall,
            TextureKind::Pillar => &self.pillar,
            TextureKind::DoorClosed => &self.door_closed,
            TextureKind::DoorOpen => &self.door_open,
        };
        if let Some(img) = tex {
            if img.data.len() >= 4 && img.w > 0 && img.h > 0 {
                let c = bilinear_in(img, u, v);
                if !(c.r == 0 && c.g == 0 && c.b == 0) {
                    return c;
                }
            }
        }
        chessboard_at(
            u,
            v,
            8,
            Color { r: 200, g: 180, b: 160, a: 255 },
            Color { r: 140, g: 120, b: 100, a: 255 },
        )
    }

    /// The colour of the agent's sprite at `(u, v)`, with its own
    /// opacity.
    pub fn sample_npc(&self, u: u32, v: u32) -> (c: Option<Color>)
        ensures
            c == self.npc_spec(u as int, v as int),
    {
        nearest_at(&self.npc, wrapped(u), wrapped(v))
    }

    /// The colour of the sky at `(u, v)`. A source pixel without any
    /// opacity counts as opaque.
    pub fn sample_sky(&self, u: u32, v: u32) -> (c: Color)
        ensures
            c == self.sky_spec(u as int, v as int),
    {
        let v: u32 = wrapped(v);
        match nearest_at(&self.sky, wrapped(u), v) {
            Some(c) => opaque(c),
            None => gradient_at(
                Color { r: 80, g: 160, b: 240, a: 255 },
                Color { r: 160, g: 200, b: 240, a: 255 },
                v,
            ),
        }
    }

    /// The colour of the floor at `(u, v)`. A source pixel without any
    /// opacity counts as opaque.
    pub fn sample_floor(&self, u: u32, v: u32) -> (c: Color)
        ensures
            c == self.floor_spec(u as int, v as int),
    {
        let u: u32 = wrapped(u);
        let v: u32 = wrapped(v);
        match nearest_at(&self.floor, u, v) {
            Some(c) => opaque(c),
            None => chessboard_at(
                u,
                v,
                6,
                Color { r: 120, g: 90, b: 60, a: 255 },
                Color { r: 100, g: 80, b: 60, a: 255 },
            ),
        }
    }

    /// The colour of the menu's background at `(u, v)`.
    pub fn sample_menu(&self, u: u32, v: u32) -> (c: Color)
        ensures
            c == self.menu_spec(u as int, v as int),
    {
        let v: u32 = wrapped(v);
        match nearest_at(&self.menu, wrapped(u), v) {
            Some(c) => c,
            None => gradient_at(
                Color { r: 30, g: 20, b: 10, a: 255 },
                Color { r: 10, g: 10, b: 10, a: 255 },
                v,
            ),
        }
    }

    /// The colour of the closing screen at `(u, v)`.
    pub fn sample_gameover(&self, u: u32, v: u32) -> (c: Color)
        ensures
            c == self.gameover_spec(u as int, v as int),
    {
        let v: u32 = wrapped(v);
        match nearest_at(&self.game_over, wrapped(u), v) {
            Some(c) => c,
            None => gradient_at(
                Color { r: 80, g: 10, b: 10, a: 255 },
                Color { r: 20, g: 10, b: 10, a: 255 },
                v,
            ),
        }
    }

    /// The colour of a collectible at `(u, v)` of the frame that shows at
    /// the phase `animation_time`, with its own opacity.
    pub fn sample_coin(&self, u: u32, v: u32, animation_time: u32, cycle: u32) -> (c: Option<Color>)
        requires
            cycle > 0,
        ensures
            c == self.coin_spec(u as int, v as int, animation_time as int, cycle as int),
    {
        let u: u32 = wrapped(u);
        let v: u32 = wrapped(v);
        if let Some(img) = &self.coin {
            let frame_width: u32 = img.w / COIN_FRAMES;
            if img.data.len() >= 4 && frame_width > 0 && img.h > 0 {
                let start: u64 = CoinAnimation::get_frame_offset(animation_time, frame_width, cycle);
                let within: u32 = coord_in(u, frame_width);
                let y: u32 = coord_in(v, img.h);
                proof {
                    assert(frame_at(animation_time as int, cycle as int) * frame_width + frame_width
                        <= 12 * frame_width) by (nonlinear_arith)
                        requires
                            0 <= frame_at(animation_time as int, cycle as int) < 12,
                            frame_width >= 0,
                    ;
                }
                let x: u32 = (within as u64 + start) as u32;
                return img.get_texel(x, y);
            }
        }
        None
    }
}

/// How the bytes of a picture are encoded.
#[derive(Clone, Copy, Debug, PartialEq, Eq, Structural)]
pub enum Encoding {
    Png,
    Jpeg,
}

/// The bytes of a picture as they were read, and how to decode them.
pub struct TextureFile {
    pub encoding: Encoding,
    pub bytes: Vec<u8>,
}

/// The candidates for each texture, in the order in which they are to be
/// tried.
pub struct TextureSources {
    pub wall: Vec<TextureFile>,
    pub pillar: Vec<TextureFile>,
    pub npc: Vec<TextureFile>,
    pub sky: Vec<TextureFile>,
    pub floor: Vec<TextureFile>,
    pub menu: Vec<TextureFile>,
    pub game_over: Vec<TextureFile>,
    pub coin: Vec<TextureFile>,
    pub door_closed: Vec<TextureFile>,
    pub door_open: Vec<TextureFile>,
}

/// The picture that the decoder makes of some bytes, read as JPEG or as
/// PNG: its width, its height and its pixels, four bytes each; `None`
/// where it refuses them.
pub uninterp spec fn decoded_image(bytes: Seq<u8>, jpeg: bool) -> Option<(u32, u32, Seq<u8>)>;

/// Whether `img` holds the picture `d`, or neither is there.
pub open spec fn holds(img: Option<ImageBuf>, d: Option<(u32, u32, Seq<u8>)>) -> bool {
    match img {
        Some(i) => d == Some((i.w, i.h, i.data@)),
        None => d is None,
    }
}

/// What the decoder makes of a file.
pub open spec fn decoded_file(file: TextureFile) -> Option<(u32, u32, Seq<u8>)> {
    decoded_image(file.bytes@, file.encoding == Encoding::Jpeg)
}

/// Whether a picture, if there is one, holds exactly four bytes for each
/// of its pixels.
pub open spec fn complete(img: Option<ImageBuf>) -> bool {
    match img {
        Some(i) => i.data@.len() == 4 * i.w * i.h,
        None => true,
    }
}

/// Decodes a picture with the `image` crate: `load_from_memory_with_format`
/// reads the bytes in the given format, `to_rgba8` brings the result to
/// four bytes a pixel, and `dimensions` and `into_raw` hand out its size
/// and its pixels. The contract names the outcome, since the same bytes
/// in the same format always decode alike, and says of it only that a
/// decoded picture holds four bytes for each pixel: `to_rgba8` makes its
/// buffer of just that length.
///
/// Every sequence of bytes is admitted. The decoders answer malformed
/// bytes with an error, which comes out as `None`; they do not promise
/// never to panic on them, and nothing here proves that they do not.
#[verifier::external_body]
fn decode(file: &TextureFile) -> (img: Option<ImageBuf>)
    ensures
        holds(img, decoded_image(file.bytes@, file.encoding == Encoding::Jpeg)),
        img matches Some(i) ==> i.data@.len() == 4 * i.w * i.h,
{
    let format = match file.encoding {
        Encoding::Png => image::ImageFormat::Png,
        Encoding::Jpeg => image::ImageFormat::Jpeg,
    };
    match image::load_from_memory_with_format(&file.bytes, format) {
        Ok(picture) => {
            let rgba = picture.to_rgba8();
            let (w, h) = rgba.dimensions();
            Some(ImageBuf { w, h, data: rgba.into_raw() })
        },
        Err(_) => None,
    }
}

/// Where the first picture among `found[from..]` lies, or the length of
/// `found` where there is none.
pub open spec fn first_some(found: Seq<Option<ImageBuf>>, from: int) -> int
    decreases found.len() - from,
{
    if from >= found.len() {
        found.len() as int
    } else if found[from] is Some {
        from
    } else {
        first_some(found, from + 1)
    }
}

/// The first picture of a list of attempts, if any succeeded.
pub fn first_loaded(found: Vec<Option<ImageBuf>>) -> (img: Option<ImageBuf>)
    ensures
        match img {
            Some(i) => first_some(found@, 0) < found@.len() && found@[first_some(found@, 0)]
                == Some(i),
            None => first_some(found@, 0) == found@.len(),
        },
{
    let mut found = found;
    let ghost all = found@;
    let mut first: Option<ImageBuf> = None;
    while found.len() > 0
        invariant
            found@.len() <= all.len(),
            forall|j: int| 0 <= j < found@.len() ==> found@[j] == all[j],
            match first {
                Some(i) => first_some(all, found@.len() as int) < all.len() && all[first_some(
                    all,
                    found@.len() as int,
                )] == Some(i),
                None => first_some(all, found@.len() as int) == all.len(),
            },
        decreases found@.len(),
    {
        let last: Option<Option<ImageBuf>> = found.pop();
        if let Some(Some(i)) = last {
            first = Some(i);
        }
    }
    first
}

/// The first picture that decodes among `files[from..]`.
pub open spec fn first_decoded(files: Seq<TextureFile>, from: int) -> Option<(u32, u32, Seq<u8>)>
    decreases files.len() - from,
{
    if from >= files.len() {
        None
    } else if decoded_file(files[from]) is Some {
        decoded_file(files[from])
    } else {
        first_decoded(files, from + 1)
    }
}

/// Decodes the candidates for a texture and keeps the first that
/// decodes; it holds four bytes for each of its pixels.
///
/// The bytes go to the picture decoder as they are. It turns malformed
/// bytes down, and that candidate is passed over; but it does not
/// promise never to panic on them, so this function may unwind where a
/// candidate is malformed.
pub fn load_texture(files: &Vec<TextureFile>) -> (img: Option<ImageBuf>)
    ensures
        holds(img, first_decoded(files@, 0)),
        complete(img),
{
    let mut found: Vec<Option<ImageBuf>> = Vec::new();
    let mut k: usize = 0;
    while k < files.len()
        invariant
            k <= files.len(),
            found@.len() == k,
            forall|j: int| 0 <= j < k ==> holds(#[trigger] found@[j], decoded_file(files@[j])),
            forall|j: int| 0 <= j < k ==> complete(#[trigger] found@[j]),
        decreases files.len() - k,
    {
        found.push(decode(&files[k]));
        k = k + 1;
    }
    proof {
        lemma_first_decoded(files@, found@, 0);
    }
    first_loaded(found)
}

/// The first attempt that succeeded holds the first picture that
/// decodes.
proof fn lemma_first_decoded(files: Seq<TextureFile>, found: Seq<Option<ImageBuf>>, from: int)
    requires
        0 <= from <= files.len(),
        found.len() == files.len(),
        forall|j: int| 0 <= j < files.len() ==> holds(#[trigger] found[j], decoded_file(files[j])),
    ensures
        first_some(found, from) < found.len() ==> holds(
            found[first_some(found, from)],
            first_decoded(files, from),
        ),
        first_some(found, from) == found.len() ==> first_decoded(files, from) is None,
        from <= first_some(found, from) <= found.len(),
    decreases files.len() - from,
{
    if from < files.len() {
        assert(holds(found[from], decoded_file(files[from])));
        if found[from] is None {
            lemma_first_decoded(files, found, from + 1);
        }
    }
}

impl TextureAtlas {
    /// Whether every texture that is there holds four bytes for each of
    /// its pixels.
    pub open spec fn all_complete(&self) -> bool {
        &&& complete(self.wall)
        &&& complete(self.pillar)
        &&& complete(self.npc)
        &&& complete(self.sky)
        &&& complete(self.floor)
        &&& complete(self.menu)
        &&& complete(self.game_over)
        &&& complete(self.coin)
        &&& complete(self.door_closed)
        &&& complete(self.door_open)
    }

    /// The textures of the game, each decoded from the first of its
    /// candidates that decodes, and each with four bytes for each of its
    /// pixels.
    ///
    /// The bytes go to the picture decoder as they are. It turns
    /// malformed bytes down, and that candidate is passed over; but it
    /// does not promise never to panic on them, so this function may
    /// unwind where a candidate is malformed.
    pub fn new(sources: &TextureSources) -> (atlas: TextureAtlas)
        ensures
            atlas.all_complete(),
            holds(atlas.wall, first_decoded(sources.wall@, 0)),
            holds(atlas.pillar, first_decoded(sources.pillar@, 0)),
            holds(atlas.npc, first_decoded(sources.npc@, 0)),
            holds(atlas.sky, first_decoded(sources.sky@, 0)),
            holds(atlas.floor, first_decoded(sources.floor@, 0)),
            holds(atlas.menu, first_decoded(sources.menu@, 0)),
            holds(atlas.game_over, first_decoded(sources.game_over@, 0)),
            holds(atlas.coin, first_decoded(sources.coin@, 0)),
            holds(atlas.door_closed, first_decoded(sources.door_closed@, 0)),
            holds(atlas.door_open, first_decoded(sources.door_open@, 0)),
    {
        TextureAtlas {
            wall: load_texture(&sources.wall),
            pillar: load_texture(&sources.pillar),
            npc: load_texture(&sources.npc),
            sky: load_texture(&sources.sky),
            floor: load_texture(&sources.floor),
            menu: load_texture(&sources.menu),
            game_over: load_texture(&sources.game_over),
            coin: load_texture(&sources.coin),
            door_closed: load_texture(&sources.door_closed),
            door_open: load_texture(&sources.door_open),
        }
    }
}

/// Where `c` occurs last among the first `n` characters of `s`, or -1
/// where it does not occur.
pub open spec fn last_index_of(s: Seq<char>, c: char, n: int) -> int
    decreases n,
{
    if n <= 0 {
        -1
    } else if s[n - 1] == c {
        n - 1
    } else {
        last_index_of(s, c, n - 1)
    }
}

/// The extension of a bare file name, one without a directory in front:
/// what follows its last dot. A name without a dot has none, nor has one
/// whose only dot comes first.
pub open spec fn extension_of(name: Seq<char>) -> Option<Seq<char>> {
    let dot = last_index_of(name, '.', name.len() as int);
    if dot > 0 {
        Some(name.subrange(dot + 1, name.len() as int))
    } else {
        None
    }
}

/// Whether `s` spells `word`, in small or capital letters; `capitals` is
/// `word` in capitals.
pub open spec fn spells(s: Seq<char>, word: Seq<char>, capitals: Seq<char>) -> bool {
    s.len() == word.len() && forall|k: int|
        0 <= k < s.len() ==> (#[trigger] s[k]) == word[k] || s[k] == capitals[k]
}

/// How a picture with this extension is encoded: `png` and `apng` are
/// PNG, `jpg`, `jpeg` and `jfif` are JPEG, whatever the case of the
/// letters. Other extensions are not known.
pub open spec fn encoding_for(ext: Seq<char>) -> Option<Encoding> {
    if spells(ext, seq!['p', 'n', 'g'], seq!['P', 'N', 'G']) || spells(
        ext,
        seq!['a', 'p', 'n', 'g'],
        seq!['A', 'P', 'N', 'G'],
    ) {
        Some(Encoding::Png)
    } else if spells(ext, seq!['j', 'p', 'g'], seq!['J', 'P', 'G']) || spells(
        ext,
        seq!['j', 'p', 'e', 'g'],
        seq!['J', 'P', 'E', 'G'],
    ) || spells(ext, seq!['j', 'f', 'i', 'f'], seq!['J', 'F', 'I', 'F']) {
        Some(Encoding::Jpeg)
    } else {
        None
    }
}

/// How the picture in a file of this bare name is encoded, going by the
/// name's extension.
pub open spec fn encoding_named(name: Seq<char>) -> Option<Encoding> {
    match extension_of(name) {
        Some(ext) => encoding_for(ext),
        None => None,
    }
}

/// Where `c` occurs last in `s`, if it does.
fn find_last(s: &Vec<char>, c: char) -> (at: Option<usize>)
    ensures
        match at {
            Some(i) => i == last_index_of(s@, c, s@.len() as int) && i < s@.len(),
            None => last_index_of(s@, c, s@.len() as int) == -1,
        },
{
    let mut n: usize = s.len();
    while n > 0
        invariant
            n <= s@.len(),
            last_index_of(s@, c, s@.len() as int) == last_index_of(s@, c, n as int),
        decreases n,
    {
        if s[n - 1] == c {
            return Some(n - 1);
        }
        n = n - 1;
    }
    None
}

/// Whether the characters of `s` from `from` on spell `word`.
fn spells_from(s: &Vec<char>, from: usize, word: &Vec<char>, capitals: &Vec<char>) -> (yes: bool)
    requires
        from <= s@.len(),
        word@.len() == capitals@.len(),
    ensures
        yes == spells(s@.subrange(from as int, s@.len() as int), word@, capitals@),
{
    let ghost tail = s@.subrange(from as int, s@.len() as int);
    if s.len() - from != word.len() {
        return false;
    }
    assert(s.len() == s@.len());
    let mut k: usize = 0;
    while k < word.len()
        invariant
            from <= s@.len(),
            tail == s@.subrange(from as int, s@.len() as int),
            tail.len() == word@.len(),
            s@.len() == from + word@.len(),
            s@.len() <= usize::MAX,
            word@.len() == capitals@.len(),
            k <= word@.len(),
            forall|j: int| 0 <= j < k ==> (#[trigger] tail[j]) == word@[j] || tail[j] == capitals@[j],
        decreases word@.len() - k,
    {
        let c: char = s[from + k];
        assert(c == tail[k as int]);
        if c != word[k] && c != capitals[k] {
            return false;
        }
        k = k + 1;
    }
    true
}

/// How the picture in a file of this name is encoded, going by the
/// name's extension; `None` for a name without an extension or with one
/// that is not known. `name` is a bare file name: a directory in front
/// of it is not told apart from the name.
pub fn encoding_of_name(name: &str) -> (encoding: Option<Encoding>)
    ensures
        encoding == encoding_named(name@),
{
    let chars: Vec<char> = chars_of(name);
    assert(chars.len() == chars@.len());
    let dot: usize = match find_last(&chars, '.') {
        Some(i) => i,
        None => {
            return None;
        },
    };
    if dot == 0 {
        return None;
    }
    let from: usize = dot + 1;
    if spells_from(&chars, from, &vec!['p', 'n', 'g'], &vec!['P', 'N', 'G']) || spells_from(
        &chars,
        from,
        &vec!['a', 'p', 'n', 'g'],
        &vec!['A', 'P', 'N', 'G'],
    ) {
        Some(Encoding::Png)
    } else if spells_from(&chars, from, &vec!['j', 'p', 'g'], &vec!['J', 'P', 'G']) || spells_from(
        &chars,
        from,
        &vec!['j', 'p', 'e', 'g'],
        &vec!['J', 'P', 'E', 'G'],
    ) || spells_from(&chars, from, &vec!['j', 'f', 'i', 'f'], &vec!['J', 'F', 'I', 'F']) {
        Some(Encoding::Jpeg)
    } else {
        None
    }
}

} // verus!
