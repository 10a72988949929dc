//! The offscreen pixel buffer that every drawing routine writes into.

use vstd::prelude::*;
use crate::geometry::{clamped, fit_inside, fitted};

verus! {

/// A colour with an opacity, one byte per channel.
#[derive(Clone, Copy, Debug, PartialEq, Eq, Structural)]
pub struct Color {
    pub r: u8,
    pub g: u8,
    pub b: u8,
    pub a: u8,
}

impl Color {
    /// A colour from its four channels.
    pub fn new(r: u8, g: u8, b: u8, a: u8) -> (c: Color)
        ensures
            c == (Color { r, g, b, a }),
    {
        Color { r, g, b, a }
    }
}

/// Opaque black, the colour of a fresh buffer.
pub open spec fn black() -> Color {
    Color { r: 0, g: 0, b: 0, a: 255 }
}

/// Opaque white, the first drawing colour.
pub open spec fn white() -> Color {
    Color { r: 255, g: 255, b: 255, a: 255 }
}

/// A rectangle of pixels, stored row by row, with the colour that
/// `set_pixel` writes and the colour that `clear` fills with.
pub struct Framebuffer {
    pub width: u32,
    pub height: u32,
    pub color_buffer: Vec<Color>,
    pub background_color: Color,
    pub current_color: Color,
}

/// Where pixel `(x, y)` lies in a buffer `width` pixels wide.
pub open spec fn pixel_index(width: int, x: int, y: int) -> int {
    y * width + x
}

impl Framebuffer {
    /// The buffer holds one colour for each of its `width * height` pixels.
    pub open spec fn wf(&self) -> bool {
        self.color_buffer@.len() == self.width * self.height
    }

    /// The colour of pixel `(x, y)`.
    pub open spec fn pixel(&self, x: int, y: int) -> Color {
        self.color_buffer@[pixel_index(self.width as int, x, y)]
    }

    /// Whether `(x, y)` is a pixel of the buffer.
    pub open spec fn has_pixel(&self, x: int, y: int) -> bool {
        0 <= x < self.width && 0 <= y < self.height
    }

    /// The same size and the same two colours as `other`; pixels may differ.
    pub open spec fn same_frame(&self, other: &Framebuffer) -> bool {
        &&& self.width == other.width
        &&& self.height == other.height
        &&& self.background_color == other.background_color
        &&& self.current_color == other.current_color
    }

    /// A black buffer of the given size. The drawing colour starts white,
    /// the background black.
    pub fn new(width: u32, height: u32) -> (fb: Framebuffer)
        requires
            width * height <= usize::MAX,
        ensures
            fb.wf(),
            fb.width == width,
            fb.height == height,
            fb.background_color == black(),
            fb.current_color == white(),
            forall|x: int, y: int| fb.has_pixel(x, y) ==> #[trigger] fb.pixel(x, y) == black(),
    {
        let n: usize = (width as usize) * (height as usize);
        let fill = Color { r: 0, g: 0, b: 0, a: 255 };
        let mut color_buffer: Vec<Color> = Vec::new();
        let mut k: usize = 0;
        while k < n
            invariant
                k <= n,
                color_buffer@.len() == k,
                forall|m: int| 0 <= m < k ==> color_buffer@[m] == fill,
            decreases n - k,
        {
            color_buffer.push(fill);
            k = k + 1;
        }
        let fb = Framebuffer {
            width,
            height,
            color_buffer,
            background_color: fill,
            current_color: Color { r: 255, g: 255, b: 255, a: 255 },
        };
        proof {
            assert forall|x: int, y: int| fb.has_pixel(x, y) implies #[trigger] fb.pixel(x, y)
                == black() by {
                lemma_pixel_index(width as int, height as int, x, y);
            }
        }
        fb
    }

    /// Fills the whole buffer with the background colour.
    pub fn clear(&mut self)
        requires
            old(self).wf(),
        ensures
            final(self).wf(),
            final(self).same_frame(old(self)),
            forall|x: int, y: int|
                final(self).has_pixel(x, y) ==> #[trigger] final(self).pixel(x, y) == old(
                    self,
                ).background_color,
    {
        let n: usize = self.color_buffer.len();
        let fill = self.background_color;
        let mut k: usize = 0;
        while k < n
            invariant
                k <= n,
                self.color_buffer@.len() == n,
                self.same_frame(old(self)),
                self.wf(),
                fill == old(self).background_color,
                forall|m: int| 0 <= m < k ==> self.color_buffer@[m] == fill,
            decreases n - k,
        {
            self.color_buffer[k] = fill;
            k = k + 1;
        }
        proof {
            assert forall|x: int, y: int| self.has_pixel(x, y) implies #[trigger] self.pixel(x, y)
                == fill by {
                lemma_pixel_index(self.width as int, self.height as int, x, y);
            }
        }
    }

    /// Where pixel `(x, y)` of this buffer is stored.
    fn index_of(&self, x: u32, y: u32) -> (idx: usize)
        requires
            self.wf(),
            self.has_pixel(x as int, y as int),
        ensures
            idx == pixel_index(self.width as int, x as int, y as int),
            idx < self.color_buffer@.len(),
    {
        proof {
            lemma_pixel_index(self.width as int, self.height as int, x as int, y as int);
            assert(self.color_buffer.len() == self.color_buffer@.len());
            assert(0 <= y * self.width) by (nonlinear_arith)
                requires
                    y >= 0,
                    self.width >= 0,
            ;
        }
        (y as usize) * (self.width as usize) + (x as usize)
    }

    /// Writes the drawing colour to pixel `(x, y)`. A position outside the
    /// buffer is ignored.
    pub fn set_pixel(&mut self, x: u32, y: u32)
        requires
            old(self).wf(),
        ensures
            final(self).wf(),
            final(self).same_frame(old(self)),
            forall|px: int, py: int|
                final(self).has_pixel(px, py) ==> #[trigger] final(self).pixel(px, py) == (if px
                    == x && py == y {
                    old(self).current_color
                } else {
                    old(self).pixel(px, py)
                }),
    {
        if x < self.width && y < self.height {
            let idx: usize = self.index_of(x, y);
            let c = self.current_color;
            self.color_buffer[idx] = c;
            proof {
                assert forall|px: int, py: int| self.has_pixel(px, py) implies #[trigger] self.pixel(
                    px,
                    py,
                ) == (if px == x && py == y {
                    old(self).current_color
                } else {
                    old(self).pixel(px, py)
                }) by {
                    lemma_pixel_index(self.width as int, self.height as int, px, py);
                    lemma_pixel_index(self.width as int, self.height as int, x as int, y as int);
                    assert(self.color_buffer@ == old(self).color_buffer@.update(idx as int, c));
                }
            }
        }
    }

    /// Writes `color` to pixel `(x, y)`, whatever the drawing colour is. A
    /// position outside the buffer is ignored.
    pub fn set_pixel_color(&mut self, x: u32, y: u32, color: Color)
        requires
            old(self).wf(),
        ensures
            final(self).wf(),
            final(self).same_frame(old(self)),
            forall|px: int, py: int|
                final(self).has_pixel(px, py) ==> #[trigger] final(self).pixel(px, py) == (if px
                    == x && py == y {
                    color
                } else {
                    old(self).pixel(px, py)
                }),
    {
        if x < self.width && y < self.height {
            let idx: usize = self.index_of(x, y);
            self.color_buffer[idx] = color;
            proof {
                assert forall|px: int, py: int| self.has_pixel(px, py) implies #[trigger] self.pixel(
                    px,
                    py,
                ) == (if px == x && py == y {
                    color
                } else {
                    old(self).pixel(px, py)
                }) by {
                    lemma_pixel_index(self.width as int, self.height as int, px, py);
                    lemma_pixel_index(self.width as int, self.height as int, x as int, y as int);
                    assert(self.color_buffer@ == old(self).color_buffer@.update(idx as int, color));
                }
            }
        }
    }

    /// Writes `color` to the pixels of row `y` from column `x0` up to, but
    /// not including, column `x1`.
    pub fn fill_span(&mut self, x0: u32, x1: u32, y: u32, color: Color)
        requires
            old(self).wf(),
        ensures
            final(self).wf(),
            final(self).same_frame(old(self)),
            forall|px: int, py: int|
                final(self).has_pixel(px, py) ==> #[trigger] final(self).pixel(px, py) == (if py
                    == y && x0 <= px < x1 {
                    color
                } else {
                    old(self).pixel(px, py)
                }),
    {
        if x1 <= x0 {
            return;
        }
        let mut x: u32 = x0;
        while x < x1
            invariant
                self.wf(),
                self.same_frame(old(self)),
                x0 <= x <= x1,
                forall|px: int, py: int|
                    self.has_pixel(px, py) ==> #[trigger] self.pixel(px, py) == (if py == y && x0
                        <= px < x {
                        color
                    } else {
                        old(self).pixel(px, py)
                    }),
            decreases x1 - x,
        {
            self.set_pixel_color(x, y, color);
            x = x + 1;
        }
    }

    /// Fills the rectangle that starts at `(x, y)` and is `w` wide and `h`
    /// high with `color`, as far as it lies in the buffer.
    pub fn fill_rect(&mut self, x: i128, y: i128, w: u128, h: u128, color: Color)
        requires
            old(self).wf(),
            -RECT_LIMIT <= x <= RECT_LIMIT,
            -RECT_LIMIT <= y <= RECT_LIMIT,
        ensures
            final(self).wf(),
            final(self).same_frame(old(self)),
            forall|px: int, py: int|
                final(self).has_pixel(px, py) ==> #[trigger] final(self).pixel(px, py) == (
                if in_rect(px, py, x as int, y as int, w as int, h as int) {
                    color
                } else {
                    old(self).pixel(px, py)
                }),
    {
        let (x0, x1) = clip(x, w, self.width);
        let (y0, y1) = clip(y, h, self.height);
        let mut py: u32 = y0;
        while py < y1
            invariant
                self.wf(),
                self.same_frame(old(self)),
                y0 <= py <= y1 <= self.height,
                x0 <= x1 <= self.width,
                forall|qx: int, qy: int|
                    self.has_pixel(qx, qy) ==> #[trigger] self.pixel(qx, qy) == (if y0 <= qy
                        < py && x0 <= qx < x1 {
                        color
                    } else {
                        old(self).pixel(qx, qy)
                    }),
            decreases y1 - py,
        {
            self.fill_span(x0, x1, py, color);
            py = py + 1;
        }
    }

    /// Where this frame shows on a screen `screen_w` by `screen_h`.
    pub fn letterbox(&self, screen_w: u32, screen_h: u32) -> (place: Rect)
        ensures
            place == letterbox_spec(
                screen_w as int,
                screen_h as int,
                self.width as int,
                self.height as int,
            ),
            place.x + place.w <= screen_w,
            place.y + place.h <= screen_h,
    {
        let (w, h) = fit_inside(screen_w, screen_h, self.width, self.height);
        Rect { x: (screen_w - w) / 2, y: (screen_h - h) / 2, w, h }
    }

    /// Chooses the colour that `clear` fills with.
    pub fn set_background_color(&mut self, color: Color)
        ensures
            *final(self) == (Framebuffer { background_color: color, ..*old(self) }),
    {
        self.background_color = color;
    }

    /// Chooses the colour that `set_pixel` writes.
    pub fn set_current_color(&mut self, color: Color)
        ensures
            *final(self) == (Framebuffer { current_color: color, ..*old(self) }),
    {
        self.current_color = color;
    }

    /// The colour of pixel `(x, y)`, or `None` outside the buffer.
    pub fn get_pixel(&self, x: u32, y: u32) -> (c: Option<Color>)
        requires
            self.wf(),
        ensures
            c == (if self.has_pixel(x as int, y as int) {
                Some(self.pixel(x as int, y as int))
            } else {
                None
            }),
    {
        if x < self.width && y < self.height {
            let idx: usize = self.index_of(x, y);
            Some(self.color_buffer[idx])
        } else {
            None
        }
    }
}

/// A rectangle of pixels: where it starts and how large it is.
#[derive(Clone, Copy, Debug, PartialEq, Eq, Structural)]
pub struct Rect {
    pub x: u32,
    pub y: u32,
    pub w: u32,
    pub h: u32,
}

/// Where a frame `width` by `height` shows on a screen `screen_w` by
/// `screen_h`: as large as fits without changing its proportions, in the
/// middle of the screen.
pub open spec fn letterbox_spec(screen_w: int, screen_h: int, width: int, height: int) -> Rect {
    let (w, h) = fitted(screen_w, screen_h, width, height);
    Rect { x: ((screen_w - w) / 2) as u32, y: ((screen_h - h) / 2) as u32, w: w as u32, h: h as u32 }
}

/// Whether `(px, py)` lies in the rectangle that starts at `(x, y)` and
/// is `w` wide and `h` high.
pub open spec fn in_rect(px: int, py: int, x: int, y: int, w: int, h: int) -> bool {
    x <= px < x + w && y <= py < y + h
}

/// The largest coordinate, either way, that a rectangle may start at.
pub const RECT_LIMIT: i128 = 0x1_0000_0000_0000_0000_0000_0000;

/// The part of the range from `lo` on, `len` long, that lies below
/// `limit` and not below 0.
fn clip(lo: i128, len: u128, limit: u32) -> (r: (u32, u32))
    requires
        -RECT_LIMIT <= lo <= RECT_LIMIT,
    ensures
        r.0 == clamped(lo as int, limit as int),
        r.1 == clamped(lo + len, limit as int),
{
    if lo >= limit as i128 {
        return (limit, limit);
    }
    if lo < 0 {
        let need: u128 = (-lo) as u128;
        if len <= need {
            return (0, 0);
        }
        let rest: u128 = len - need;
        let b: u32 = if rest >= limit as u128 {
            limit
        } else {
            rest as u32
        };
        (0, b)
    } else {
        let a: u32 = lo as u32;
        let room: u32 = limit - a;
        let b: u32 = if len >= room as u128 {
            limit
        } else {
            a + len as u32
        };
        (a, b)
    }
}

/// Distinct pixels of a buffer lie at distinct places, all inside it.
pub proof fn lemma_pixel_index(width: int, height: int, x: int, y: int)
    requires
        0 <= x < width,
        0 <= y < height,
    ensures
        0 <= pixel_index(width, x, y) < width * height,
        pixel_index(width, x, y) / width == y,
        pixel_index(width, x, y) % width == x,
{
    assert(0 <= y * width + x < width * height) by (nonlinear_arith)
        requires
            0 <= x < width,
            0 <= y < height,
    ;
    vstd::arithmetic::div_mod::lemma_fundamental_div_mod_converse(y * width + x, width, y, x);
}

} // verus!
