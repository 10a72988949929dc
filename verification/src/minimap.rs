//! The map in the corner: a block of colour for each cell that the
//! viewer has come near, fog for the rest, and a marker for the viewer
//! and for each agent in a discovered cell.

use vstd::prelude::*;
use vstd::arithmetic::mul::lemma_mul_upper_bound;
use crate::framebuffer::{in_rect, Color, Framebuffer};
use crate::geometry::{clamped, lemma_group, Vector2};
use crate::maze::{
    cell_coord, cell_in_bounds, cell_index, cell_indices_from_pos, cell_kind, grid_of,
    lemma_grid_cell, CellKind, Grid, Maze,
};
use crate::player::Player;
use crate::sprite::NPC;

verus! {

/// How many cells around the viewer's are revealed, each way.
pub const REVEAL_RADIUS: i64 = 2;

/// The margin of the map's backdrop around its cells, in pixels.
pub const MARGIN: i128 = 6;

/// Which cells have been discovered, as contracts see it.
pub type Flags = Seq<Seq<bool>>;

/// The flags that a stored grid of flags stands for.
pub open spec fn flags_of(d: &Vec<Vec<bool>>) -> Flags {
    Seq::new(d@.len(), |j: int| d@[j]@)
}

/// Whether there is one flag for each cell of the grid.
pub open spec fn shape_matches(d: Flags, g: Grid) -> bool {
    &&& d.len() == g.len()
    &&& forall|j: int| 0 <= j < g.len() ==> (#[trigger] d[j]).len() == g[j].len()
}

/// The flags of a grid of which nothing is discovered yet.
pub open spec fn fresh(g: Grid) -> Flags {
    Seq::new(g.len(), |j: int| Seq::new(g[j].len(), |i: int| false))
}

/// The flags to go on with: those given where they fit the grid, fresh
/// ones where they do not.
pub open spec fn prepared(d: Flags, g: Grid) -> Flags {
    if shape_matches(d, g) {
        d
    } else {
        fresh(g)
    }
}

/// Whether cell `(i, j)` lies within `REVEAL_RADIUS` of cell `(ci, cj)`
/// along both axes.
pub open spec fn near_cell(i: int, j: int, ci: int, cj: int) -> bool {
    ci - REVEAL_RADIUS <= i <= ci + REVEAL_RADIUS && cj - REVEAL_RADIUS <= j <= cj
        + REVEAL_RADIUS
}

/// The flags once the cells near `(ci, cj)` are revealed: what was
/// discovered stays so.
pub open spec fn revealed(d: Flags, ci: int, cj: int) -> Flags {
    Seq::new(
        d.len(),
        |j: int| Seq::new(d[j].len(), |i: int| d[j][i] || near_cell(i, j, ci, cj)),
    )
}

/// The flags after the map has been drawn for a viewer at `(x, y)`. A
/// maze without rows has no map, and the flags stay as they are.
pub open spec fn discovered_after(d: Flags, g: Grid, x: int, y: int, block_size: int) -> Flags {
    if g.len() == 0 {
        d
    } else {
        revealed(prepared(d, g), cell_index(x, block_size), cell_index(y, block_size))
    }
}

/// The flags after the map has been drawn for each of the first `n`
/// positions in turn.
pub open spec fn explored(d: Flags, g: Grid, path: Seq<Vector2>, block_size: int, n: nat) -> Flags
    decreases n,
{
    if n == 0 {
        d
    } else {
        discovered_after(
            explored(d, g, path, block_size, (n - 1) as nat),
            g,
            path[n - 1].x as int,
            path[n - 1].y as int,
            block_size,
        )
    }
}

/// Every flag that is set in `a` is set in `b`, and they have one shape.
pub open spec fn covers(b: Flags, a: Flags) -> bool {
    &&& b.len() == a.len()
    &&& forall|j: int| 0 <= j < a.len() ==> (#[trigger] b[j]).len() == a[j].len()
    &&& forall|i: int, j: int| 0 <= j < a.len() && 0 <= i < a[j].len() && a[j][i] ==> b[j][i]
}

/// Revealing never hides: every cell discovered before is discovered
/// after.
pub proof fn lemma_reveal_keeps(d: Flags, ci: int, cj: int)
    ensures
        covers(revealed(d, ci, cj), d),
{
}

/// Drawing the map never hides a cell, as long as the flags fit the
/// maze.
pub proof fn lemma_discovered_grows(d: Flags, g: Grid, x: int, y: int, block_size: int)
    requires
        shape_matches(d, g),
    ensures
        covers(discovered_after(d, g, x, y, block_size), d),
        shape_matches(discovered_after(d, g, x, y, block_size), g),
{
}

/// Wherever the viewer goes, what is discovered only grows: after any
/// number of positions every cell that was discovered at the start
/// still is.
pub proof fn lemma_explored_grows(d: Flags, g: Grid, path: Seq<Vector2>, block_size: int, n: nat)
    requires
        shape_matches(d, g),
        n <= path.len(),
    ensures
        covers(explored(d, g, path, block_size, n), d),
        shape_matches(explored(d, g, path, block_size, n), g),
    decreases n,
{
    if n > 0 {
        let before = explored(d, g, path, block_size, (n - 1) as nat);
        lemma_explored_grows(d, g, path, block_size, (n - 1) as nat);
        lemma_discovered_grows(before, g, path[n - 1].x as int, path[n - 1].y as int, block_size);
    }
}

/// A row of `n` flags, none set.
fn clear_flags(n: usize) -> (row: Vec<bool>)
    ensures
        row@.len() == n,
        forall|i: int| 0 <= i < n ==> !row@[i],
{
    let mut row: Vec<bool> = Vec::new();
    let mut i: usize = 0;
    while i < n
        invariant
            i <= n,
            row@.len() == i,
            forall|k: int| 0 <= k < i ==> !row@[k],
        decreases n - i,
    {
        row.push(false);
        i = i + 1;
    }
    row
}

/// The flags of a maze of which nothing is discovered yet.
pub fn new_discovered(maze: &Maze) -> (d: Vec<Vec<bool>>)
    ensures
        flags_of(&d) == fresh(grid_of(maze)),
{
    let mut d: Vec<Vec<bool>> = Vec::new();
    let mut j: usize = 0;
    while j < maze.len()
        invariant
            j <= maze.len(),
            d@.len() == j,
            forall|r: int| 0 <= r < j ==> (#[trigger] d@[r])@.len() == maze@[r]@.len(),
            forall|r: int, c: int| 0 <= r < j && 0 <= c < maze@[r]@.len() ==> !(#[trigger] d@[r]@[c]),
        decreases maze.len() - j,
    {
        d.push(clear_flags(maze[j].len()));
        j = j + 1;
    }
    proof {
        let a = flags_of(&d);
        let b = fresh(grid_of(maze));
        assert(a.len() == b.len());
        assert forall|r: int| 0 <= r < a.len() implies a[r] == b[r] by {
            assert(a[r] =~= b[r]);
        }
        assert(a =~= b);
    }
    d
}

/// Whether there is one flag for each cell of the maze.
pub fn fits(discovered: &Vec<Vec<bool>>, maze: &Maze) -> (ok: bool)
    ensures
        ok == shape_matches(flags_of(discovered), grid_of(maze)),
{
    if discovered.len() != maze.len() {
        return false;
    }
    let mut j: usize = 0;
    while j < maze.len()
        invariant
            j <= maze.len(),
            discovered@.len() == maze@.len(),
            forall|r: int|
                0 <= r < j ==> (#[trigger] flags_of(discovered)[r]).len() == grid_of(maze)[r].len(),
        decreases maze.len() - j,
    {
        if discovered[j].len() != maze[j].len() {
            assert(flags_of(discovered)[j as int].len() != grid_of(maze)[j as int].len());
            return false;
        }
        j = j + 1;
    }
    true
}

/// The part of the cells from `c - REVEAL_RADIUS` to `c + REVEAL_RADIUS`
/// that lies in a row (or column) of `len` cells.
fn window(c: i64, len: usize) -> (r: (usize, usize))
    ensures
        r.0 == clamped(c - REVEAL_RADIUS, len as int),
        r.1 == clamped(c + REVEAL_RADIUS + 1, len as int),
        r.0 <= r.1 <= len,
{
    let lo: i128 = c as i128 - REVEAL_RADIUS as i128;
    let hi: i128 = c as i128 + REVEAL_RADIUS as i128 + 1;
    let n: i128 = len as i128;
    let a: usize = if lo < 0 {
        0
    } else if lo > n {
        len
    } else {
        lo as usize
    };
    let b: usize = if hi < 0 {
        0
    } else if hi > n {
        len
    } else {
        hi as usize
    };
    (a, b)
}

/// Reveals the cells within `REVEAL_RADIUS` of cell `(ci, cj)`. What was
/// discovered stays so.
pub fn reveal_around(discovered: &mut Vec<Vec<bool>>, ci: i64, cj: i64)
    ensures
        flags_of(final(discovered)) == revealed(flags_of(old(discovered)), ci as int, cj as int),
{
    let ghost before = flags_of(discovered);
    let (jlo, jhi) = window(cj, discovered.len());
    let mut j: usize = jlo;
    while j < jhi
        invariant
            before == flags_of(old(discovered)),
            jlo == clamped(cj - REVEAL_RADIUS, before.len() as int),
            jhi == clamped(cj + REVEAL_RADIUS + 1, before.len() as int),
            jlo <= j <= jhi <= before.len(),
            discovered@.len() == before.len(),
            forall|r: int| 0 <= r < before.len() ==> (#[trigger] discovered@[r])@.len() == before[r].len(),
            forall|r: int, c: int|
                0 <= r < before.len() && 0 <= c < before[r].len() ==> (#[trigger] discovered@[r]@[c])
                    == (before[r][c] || (r < j && near_cell(c, r, ci as int, cj as int))),
        decreases jhi - j,
    {
        let (ilo, ihi) = window(ci, discovered[j].len());
        let mut i: usize = ilo;
        while i < ihi
            invariant
                j < jhi <= before.len(),
                jlo <= j,
                jlo == clamped(cj - REVEAL_RADIUS, before.len() as int),
                jhi == clamped(cj + REVEAL_RADIUS + 1, before.len() as int),
                ilo == clamped(ci - REVEAL_RADIUS, before[j as int].len() as int),
                ihi == clamped(ci + REVEAL_RADIUS + 1, before[j as int].len() as int),
                ilo <= i <= ihi <= before[j as int].len(),
                discovered@.len() == before.len(),
                forall|r: int|
                    0 <= r < before.len() ==> (#[trigger] discovered@[r])@.len() == before[r].len(),
                forall|r: int, c: int|
                    0 <= r < before.len() && 0 <= c < before[r].len() ==> (
                    #[trigger] discovered@[r]@[c]) == (before[r][c] || ((r < j || (r == j && c
                        < i)) && near_cell(c, r, ci as int, cj as int))),
            decreases ihi - i,
        {
            discovered[j][i] = true;
            i = i + 1;
        }
        j = j + 1;
    }
    proof {
        let a = flags_of(discovered);
        let b = revealed(before, ci as int, cj as int);
        assert(a.len() == b.len());
        assert forall|r: int| 0 <= r < a.len() implies a[r] == b[r] by {
            assert(a[r].len() == b[r].len());
            assert forall|c: int| 0 <= c < a[r].len() implies a[r][c] == b[r][c] by {
                assert(discovered@[r]@[c] == (before[r][c] || (r < j && near_cell(
                    c,
                    r,
                    ci as int,
                    cj as int,
                ))));
            }
            assert(a[r] =~= b[r]);
        }
        assert(a =~= b);
    }
}

/// What the map shows: the maze, what is discovered of it, the size of
/// a cell on the map in pixels, and where the map's first cell begins.
pub struct MapView {
    pub g: Grid,
    pub d: Flags,
    pub scale: int,
    pub xo: int,
    pub yo: int,
    pub block_size: int,
}

/// The colour behind the cells of the map.
pub open spec fn backdrop() -> Color {
    Color { r: 8, g: 8, b: 16, a: 200 }
}

/// The colour of the map's top and left edge.
pub open spec fn border() -> Color {
    Color { r: 220, g: 220, b: 220, a: 200 }
}

/// The colour of a cell that is not discovered.
pub open spec fn fog() -> Color {
    Color { r: 10, g: 10, b: 20, a: 220 }
}

/// The colour of the lines between discovered cells.
pub open spec fn grid_line() -> Color {
    Color { r: 20, g: 20, b: 30, a: 120 }
}

/// The colour of an agent's marker.
pub open spec fn agent_marker() -> Color {
    Color { r: 255, g: 0, b: 0, a: 255 }
}

/// The colour of the viewer's marker.
pub open spec fn viewer_marker() -> Color {
    Color { r: 135, g: 206, b: 235, a: 255 }
}

/// The colour of a discovered cell on the map.
pub open spec fn symbol_color(c: char) -> Color {
    if c == ' ' {
        Color { r: 170, g: 170, b: 180, a: 200 }
    } else if c == '+' || c == '|' || c == '-' {
        Color { r: 32, g: 32, b: 48, a: 255 }
    } else if c == 'g' {
        Color { r: 80, g: 160, b: 80, a: 255 }
    } else if c == 'R' {
        Color { r: 180, g: 100, b: 100, a: 255 }
    } else {
        Color { r: 140, g: 140, b: 140, a: 200 }
    }
}

/// The length of the longest of the first `n` rows.
pub open spec fn widest(g: Grid, n: nat) -> int
    decreases n,
{
    if n == 0 {
        0
    } else {
        let w = widest(g, (n - 1) as nat);
        if g[n - 1].len() > w {
            g[n - 1].len() as int
        } else {
            w
        }
    }
}

/// `n / d`, rounded to the nearest whole number, halves away from zero.
pub open spec fn rounded(n: int, d: int) -> int {
    if n >= 0 {
        (2 * n + d) / (2 * d)
    } else {
        -((-2 * n + d) / (2 * d))
    }
}

/// Where a world coordinate lies on the map, along one axis.
pub open spec fn marker_at(origin: int, pos: int, scale: int, block_size: int) -> int {
    origin + rounded(pos * scale, block_size)
}

/// A marker over `under`: four pixels each way, from one pixel before
/// `(cx, cy)`.
pub open spec fn marker_layer(under: Color, cx: int, cy: int, color: Color, px: int, py: int) -> Color {
    if in_rect(px, py, cx - 1, cy - 1, 4, 4) {
        color
    } else {
        under
    }
}

/// Whether an agent at `pos` is shown: whether its cell is discovered.
pub open spec fn agent_shown(d: Flags, pos: Vector2, block_size: int) -> bool {
    let i = cell_index(pos.x as int, block_size);
    let j = cell_index(pos.y as int, block_size);
    0 <= j < d.len() && 0 <= i < d[j].len() && d[j][i]
}

impl MapView {
    /// The size of the backdrop.
    pub open spec fn frame_w(&self) -> int {
        widest(self.g, self.g.len()) * self.scale + 2 * MARGIN
    }

    /// The height of the backdrop.
    pub open spec fn frame_h(&self) -> int {
        self.g.len() * self.scale + 2 * MARGIN
    }

    /// The backdrop over `under`.
    pub open spec fn backdrop_layer(&self, under: Color, px: int, py: int) -> Color {
        if in_rect(px, py, self.xo - MARGIN, self.yo - MARGIN, self.frame_w(), self.frame_h()) {
            backdrop()
        } else {
            under
        }
    }

    /// The backdrop's top and left edge over `under`.
    pub open spec fn border_layer(&self, under: Color, px: int, py: int) -> Color {
        if in_rect(px, py, self.xo - MARGIN, self.yo - MARGIN, 1, self.frame_h()) {
            border()
        } else if in_rect(px, py, self.xo - MARGIN, self.yo - MARGIN, self.frame_w(), 1) {
            border()
        } else {
            under
        }
    }

    /// The colour of pixel `(px, py)` of the block of cell `(rx, ry)`:
    /// fog over an undiscovered cell; else a line along the block's
    /// bottom and right edge, and the symbol's colour inside.
    pub open spec fn block_pixel(&self, rx: int, ry: int, px: int, py: int) -> Color {
        if !self.d[ry][rx] {
            fog()
        } else if px == self.xo + rx * self.scale + self.scale - 1 || py == self.yo + ry
            * self.scale + self.scale - 1 {
            grid_line()
        } else {
            symbol_color(self.g[ry][rx])
        }
    }

    /// Whether pixel `(px, py)` lies in the block of a cell of the maze.
    pub open spec fn on_cell(&self, px: int, py: int) -> bool {
        self.scale > 0 && px >= self.xo && py >= self.yo && cell_in_bounds(
            self.g,
            (px - self.xo) / self.scale,
            (py - self.yo) / self.scale,
        )
    }

    /// The cells over `under`: each cell of the maze is a block of
    /// `scale` by `scale` pixels.
    pub open spec fn cell_layer(&self, under: Color, px: int, py: int) -> Color {
        if self.on_cell(px, py) {
            self.block_pixel((px - self.xo) / self.scale, (py - self.yo) / self.scale, px, py)
        } else {
            under
        }
    }

    /// The map without its markers, over `under`.
    pub open spec fn base_pixel(&self, under: Color, px: int, py: int) -> Color {
        self.cell_layer(
            self.border_layer(self.backdrop_layer(under, px, py), px, py),
            px,
            py,
        )
    }

    /// The markers of the first `n` agents over `base`, in their order.
    pub open spec fn agents_layer(&self, npcs: Seq<NPC>, n: nat, base: Color, px: int, py: int) -> Color
        decreases n,
    {
        if n == 0 {
            base
        } else {
            let under = self.agents_layer(npcs, (n - 1) as nat, base, px, py);
            if agent_shown(self.d, npcs[n - 1].pos, self.block_size) {
                marker_layer(
                    under,
                    marker_at(self.xo, npcs[n - 1].pos.x as int, self.scale, self.block_size),
                    marker_at(self.yo, npcs[n - 1].pos.y as int, self.scale, self.block_size),
                    agent_marker(),
                    px,
                    py,
                )
            } else {
                under
            }
        }
    }

    /// The finished map over `under`: backdrop, border, cells, the
    /// agents in discovered cells, and the viewer on top.
    pub open spec fn map_pixel(&self, npcs: Seq<NPC>, viewer: Vector2, under: Color, px: int, py: int) -> Color {
        marker_layer(
            self.agents_layer(npcs, npcs.len(), self.base_pixel(under, px, py), px, py),
            marker_at(self.xo, viewer.x as int, self.scale, self.block_size),
            marker_at(self.yo, viewer.y as int, self.scale, self.block_size),
            viewer_marker(),
            px,
            py,
        )
    }
}

/// The colour of a discovered cell on the map.
pub fn color_of_symbol(c: char) -> (col: Color)
    ensures
        col == symbol_color(c),
{
    match cell_kind(c) {
        CellKind::Empty => Color { r: 170, g: 170, b: 180, a: 200 },
        CellKind::Pillar | CellKind::WallVertical | CellKind::WallHorizontal => Color {
            r: 32,
            g: 32,
            b: 48,
            a: 255,
        },
        CellKind::Goal => Color { r: 80, g: 160, b: 80, a: 255 },
        CellKind::AgentSpawn => Color { r: 180, g: 100, b: 100, a: 255 },
        _ => Color { r: 140, g: 140, b: 140, a: 200 },
    }
}

/// The length of the longest row.
fn widest_row(maze: &Maze) -> (w: usize)
    ensures
        w == widest(grid_of(maze), maze@.len()),
{
    let mut w: usize = 0;
    let mut j: usize = 0;
    while j < maze.len()
        invariant
            j <= maze.len(),
            w == widest(grid_of(maze), j as nat),
        decreases maze.len() - j,
    {
        if maze[j].len() > w {
            w = maze[j].len();
        }
        j = j + 1;
    }
    w
}

/// The product of two sizes.
fn times(a: usize, b: usize) -> (p: u128)
    ensures
        p == a * b,
        p <= 0xffff_ffff_ffff_ffff * 0xffff_ffff_ffff_ffff,
{
    proof {
        lemma_mul_upper_bound(a as int, 0xffff_ffff_ffff_ffff, b as int, 0xffff_ffff_ffff_ffff);
        assert(0 <= a * b) by (nonlinear_arith)
            requires
                a >= 0,
                b >= 0,
        ;
    }
    (a as u128) * (b as u128)
}

/// Rounding `n / d` gives no more than `n + 1`, and nothing for
/// nothing.
proof fn lemma_half_up(n: int, d: int)
    requires
        n >= 0,
        d >= 1,
    ensures
        0 <= (2 * n + d) / (2 * d) <= n + 1,
        n == 0 ==> (2 * n + d) / (2 * d) == 0,
{
    assert(2 * n + d <= (2 * d) * (n + 1)) by (nonlinear_arith)
        requires
            n >= 0,
            d >= 1,
    ;
    vstd::arithmetic::div_mod::lemma_multiply_divide_le(2 * n + d, 2 * d, n + 1);
    assert((2 * n + d) / (2 * d) >= 0) by (nonlinear_arith)
        requires
            2 * n + d >= 0,
            d >= 1,
    ;
    if n == 0 {
        assert(d < (2 * d) * 1) by (nonlinear_arith)
            requires
                d >= 1,
        ;
        vstd::arithmetic::div_mod::lemma_multiply_divide_lt(d, 2 * d, 1);
    }
}

/// Where a world coordinate lies on the map, along one axis.
fn marker_coord(origin: usize, pos: i32, scale: usize, block_size: u32) -> (c: i128)
    requires
        block_size > 0,
    ensures
        c == marker_at(origin as int, pos as int, scale as int, block_size as int),
        -0x1_0000_0000_0000_0000_0000_0000 < c - 1,
        c - 1 < 0x1_0000_0000_0000_0000_0000_0000,
{
    let d: u128 = 2 * (block_size as u128);
    if pos >= 0 {
        proof {
            lemma_mul_upper_bound(pos as int, 0x7fff_ffff, scale as int, 0xffff_ffff_ffff_ffff);
            assert(0 <= pos * scale) by (nonlinear_arith)
                requires
                    pos >= 0,
                    scale >= 0,
            ;
        }
        let n: u128 = (pos as u128) * (scale as u128);
        proof {
            lemma_half_up(n as int, block_size as int);
        }
        let q: u128 = (2 * n + block_size as u128) / d;
        origin as i128 + q as i128
    } else {
        let m: u128 = (-(pos as i64)) as u128;
        proof {
            lemma_mul_upper_bound(m as int, 0x8000_0000, scale as int, 0xffff_ffff_ffff_ffff);
            assert(0 <= m * scale) by (nonlinear_arith)
                requires
                    m >= 0,
                    scale >= 0,
            ;
            assert(pos * scale == -(m * scale)) by (nonlinear_arith)
                requires
                    pos == -m,
            ;
        }
        let n: u128 = m * (scale as u128);
        proof {
            lemma_half_up(n as int, block_size as int);
        }
        let q: u128 = (2 * n + block_size as u128) / d;
        origin as i128 - q as i128
    }
}

/// Draws a marker over what the frame holds.
fn draw_marker(fb: &mut Framebuffer, cx: i128, cy: i128, color: Color)
    requires
        old(fb).wf(),
        -0x1_0000_0000_0000_0000_0000_0000 < cx - 1 < 0x1_0000_0000_0000_0000_0000_0000,
        -0x1_0000_0000_0000_0000_0000_0000 < cy - 1 < 0x1_0000_0000_0000_0000_0000_0000,
    ensures
        final(fb).wf(),
        final(fb).same_frame(old(fb)),
        forall|px: int, py: int|
            final(fb).has_pixel(px, py) ==> #[trigger] final(fb).pixel(px, py) == marker_layer(
                old(fb).pixel(px, py),
                cx as int,
                cy as int,
                color,
                px,
                py,
            ),
{
    fb.fill_rect(cx - 1, cy - 1, 4, 4, color);
}

/// Whether the cell of an agent at `pos` is discovered.
fn is_shown(discovered: &Vec<Vec<bool>>, pos: Vector2, block_size: u32) -> (shown: bool)
    requires
        block_size > 0,
    ensures
        shown == agent_shown(flags_of(discovered), pos, block_size as int),
{
    let i: i64 = cell_coord(pos.x, block_size);
    let j: i64 = cell_coord(pos.y, block_size);
    if j < 0 || i < 0 {
        return false;
    }
    if j as u64 >= discovered.len() as u64 {
        return false;
    }
    if i as u64 >= discovered[j as usize].len() as u64 {
        return false;
    }
    discovered[j as usize][i as usize]
}

impl MapView {
    /// Whether the block of the cell under pixel `(px, py)` is drawn
    /// before that of cell `(rx, ry)`: cells are drawn row by row.
    spec fn cell_done(&self, px: int, py: int, rx: int, ry: int) -> bool {
        self.on_cell(px, py) && ((py - self.yo) / self.scale < ry || ((py - self.yo) / self.scale
            == ry && (px - self.xo) / self.scale < rx))
    }
}

/// Draws the block of cell `(rx, ry)`.
fn draw_block(
    fb: &mut Framebuffer,
    x: i128,
    y: i128,
    scale: usize,
    shown: bool,
    symbol: char,
    Ghost(m): Ghost<MapView>,
    Ghost(rx): Ghost<int>,
    Ghost(ry): Ghost<int>,
)
    requires
        old(fb).wf(),
        scale > 0,
        0 <= x <= 0x4_0000_0000_0000_0000,
        0 <= y <= 0x4_0000_0000_0000_0000,
        m.scale == scale,
        x == m.xo + rx * m.scale,
        y == m.yo + ry * m.scale,
        shown == m.d[ry][rx],
        symbol == m.g[ry][rx],
    ensures
        final(fb).wf(),
        final(fb).same_frame(old(fb)),
        forall|px: int, py: int|
            final(fb).has_pixel(px, py) ==> #[trigger] final(fb).pixel(px, py) == (if in_rect(
                px,
                py,
                x as int,
                y as int,
                scale as int,
                scale as int,
            ) {
                m.block_pixel(rx, ry, px, py)
            } else {
                old(fb).pixel(px, py)
            }),
{
    let side: u128 = scale as u128;
    if !shown {
        fb.fill_rect(x, y, side, side, Color { r: 10, g: 10, b: 20, a: 220 });
    } else {
        let line = Color { r: 20, g: 20, b: 30, a: 120 };
        fb.fill_rect(x, y, side, side, color_of_symbol(symbol));
        fb.fill_rect(x, y + (scale - 1) as i128, side, 1, line);
        fb.fill_rect(x + (scale - 1) as i128, y, 1, side, line);
    }
}

/// Draws the block of every cell.
fn draw_cells(
    fb: &mut Framebuffer,
    maze: &Maze,
    discovered: &Vec<Vec<bool>>,
    scale: usize,
    xo: usize,
    yo: usize,
    Ghost(m): Ghost<MapView>,
)
    requires
        old(fb).wf(),
        m.g == grid_of(maze),
        m.d == flags_of(discovered),
        shape_matches(m.d, m.g),
        m.scale == scale,
        m.xo == xo,
        m.yo == yo,
    ensures
        final(fb).wf(),
        final(fb).same_frame(old(fb)),
        forall|px: int, py: int|
            final(fb).has_pixel(px, py) ==> #[trigger] final(fb).pixel(px, py) == m.cell_layer(
                old(fb).pixel(px, py),
                px,
                py,
            ),
{
    if scale == 0 {
        return;
    }
    let limit: u128 = 0x1_0000_0000_0000_0000;
    let mut ry: usize = 0;
    while ry < maze.len()
        invariant
            fb.wf(),
            fb.same_frame(old(fb)),
            m.g == grid_of(maze),
            m.d == flags_of(discovered),
            shape_matches(m.d, m.g),
            m.scale == scale,
            m.xo == xo,
            m.yo == yo,
            scale > 0,
            limit == 0x1_0000_0000_0000_0000,
            ry <= maze.len(),
            forall|px: int, py: int|
                fb.has_pixel(px, py) ==> #[trigger] fb.pixel(px, py) == (if m.cell_done(
                    px,
                    py,
                    0,
                    ry as int,
                ) {
                    m.cell_layer(old(fb).pixel(px, py), px, py)
                } else {
                    old(fb).pixel(px, py)
                }),
        decreases maze.len() - ry,
    {
        let yoff: u128 = times(ry, scale);
        let mut rx: usize = 0;
        while rx < maze[ry].len()
            invariant
                fb.wf(),
                fb.same_frame(old(fb)),
                m.g == grid_of(maze),
                m.d == flags_of(discovered),
                shape_matches(m.d, m.g),
                m.scale == scale,
                m.xo == xo,
                m.yo == yo,
                scale > 0,
                limit == 0x1_0000_0000_0000_0000,
                ry < maze.len(),
                yoff == ry * scale,
                rx <= maze@[ry as int]@.len(),
                forall|px: int, py: int|
                    fb.has_pixel(px, py) ==> #[trigger] fb.pixel(px, py) == (if m.cell_done(
                        px,
                        py,
                        rx as int,
                        ry as int,
                    ) {
                        m.cell_layer(old(fb).pixel(px, py), px, py)
                    } else {
                        old(fb).pixel(px, py)
                    }),
            decreases maze@[ry as int]@.len() - rx,
        {
            let xoff: u128 = times(rx, scale);
            let ghost before = *fb;
            proof {
                assert(cell_in_bounds(m.g, rx as int, ry as int));
                lemma_grid_cell(maze, rx as int, ry as int);
                assert(m.d[ry as int].len() == m.g[ry as int].len());
            }
            if xoff <= limit && yoff <= limit {
                let x: i128 = xo as i128 + xoff as i128;
                let y: i128 = yo as i128 + yoff as i128;
                draw_block(
                    fb,
                    x,
                    y,
                    scale,
                    discovered[ry][rx],
                    maze[ry][rx],
                    Ghost(m),
                    Ghost(rx as int),
                    Ghost(ry as int),
                );
            }
            proof {
                assert forall|px: int, py: int| fb.has_pixel(px, py) implies #[trigger] fb.pixel(
                    px,
                    py,
                ) == (if m.cell_done(px, py, rx + 1, ry as int) {
                    m.cell_layer(old(fb).pixel(px, py), px, py)
                } else {
                    old(fb).pixel(px, py)
                }) by {
                    assert(before.has_pixel(px, py));
                    if px >= xo && py >= yo {
                        lemma_group(px - xo, scale as int, rx as int);
                        lemma_group(py - yo, scale as int, ry as int);
                    }
                }
            }
            rx = rx + 1;
        }
        proof {
            assert forall|px: int, py: int| fb.has_pixel(px, py) implies #[trigger] fb.pixel(px, py)
                == (if m.cell_done(px, py, 0, ry + 1) {
                m.cell_layer(old(fb).pixel(px, py), px, py)
            } else {
                old(fb).pixel(px, py)
            }) by {}
        }
        ry = ry + 1;
    }
}

/// The map that `render_minimap` draws.
pub open spec fn map_view(
    maze: &Maze,
    d: Flags,
    scale: usize,
    player: &Player,
    xo: usize,
    yo: usize,
    block_size: u32,
) -> MapView {
    MapView {
        g: grid_of(maze),
        d: discovered_after(
            d,
            grid_of(maze),
            player.pos.x as int,
            player.pos.y as int,
            block_size as int,
        ),
        scale: scale as int,
        xo: xo as int,
        yo: yo as int,
        block_size: block_size as int,
    }
}

/// Draws the map into the frame, with its first cell at `(xo, yo)` and
/// `scale` pixels to a cell, and reveals the cells around the viewer.
///
/// Flags that do not fit the maze are replaced by fresh ones first. The
/// cells within `REVEAL_RADIUS` of the viewer's cell become discovered.
/// Then the map is drawn: a backdrop with a border, fog over each cell
/// that is not discovered and the colour of its symbol over each that
/// is, a marker for each agent whose cell is discovered, and a marker
/// for the viewer. A maze without rows has no map: nothing is drawn and
/// nothing revealed.
pub fn render_minimap(
    fb: &mut Framebuffer,
    maze: &Maze,
    scale: usize,
    player: &Player,
    xo: usize,
    yo: usize,
    block_size: u32,
    npcs: &Vec<NPC>,
    discovered: &mut Vec<Vec<bool>>,
)
    requires
        old(fb).wf(),
        block_size > 0,
    ensures
        final(fb).wf(),
        final(fb).same_frame(old(fb)),
        flags_of(final(discovered)) == discovered_after(
            flags_of(old(discovered)),
            grid_of(maze),
            player.pos.x as int,
            player.pos.y as int,
            block_size as int,
        ),
        forall|px: int, py: int|
            final(fb).has_pixel(px, py) ==> #[trigger] final(fb).pixel(px, py) == (if maze@.len()
                == 0 {
                old(fb).pixel(px, py)
            } else {
                map_view(
                    maze,
                    flags_of(old(discovered)),
                    scale,
                    player,
                    xo,
                    yo,
                    block_size,
                ).map_pixel(npcs@, player.pos, old(fb).pixel(px, py), px, py)
            }),
{
    if maze.len() == 0 {
        return;
    }
    let ghost g = grid_of(maze);
    let ghost m = map_view(maze, flags_of(old(discovered)), scale, player, xo, yo, block_size);
    if !fits(discovered, maze) {
        *discovered = new_discovered(maze);
    }
    assert(flags_of(discovered) == prepared(flags_of(old(discovered)), g));
    let (ci, cj) = cell_indices_from_pos(player.pos.x, player.pos.y, block_size);
    reveal_around(discovered, ci, cj);
    assert(flags_of(discovered) == m.d);
    assert(shape_matches(m.d, m.g));
    let w: u128 = times(widest_row(maze), scale) + 12;
    let h: u128 = times(maze.len(), scale) + 12;
    let left: i128 = xo as i128 - MARGIN;
    let top: i128 = yo as i128 - MARGIN;
    fb.fill_rect(left, top, w, h, Color { r: 8, g: 8, b: 16, a: 200 });
    fb.fill_rect(left, top, w, 1, Color { r: 220, g: 220, b: 220, a: 200 });
    fb.fill_rect(left, top, 1, h, Color { r: 220, g: 220, b: 220, a: 200 });
    draw_cells(fb, maze, discovered, scale, xo, yo, Ghost(m));
    let mut k: usize = 0;
    while k < npcs.len()
        invariant
            fb.wf(),
            fb.same_frame(old(fb)),
            block_size > 0,
            m == map_view(maze, flags_of(old(discovered)), scale, player, xo, yo, block_size),
            flags_of(discovered) == m.d,
            k <= npcs.len(),
            forall|px: int, py: int|
                fb.has_pixel(px, py) ==> #[trigger] fb.pixel(px, py) == m.agents_layer(
                    npcs@,
                    k as nat,
                    m.base_pixel(old(fb).pixel(px, py), px, py),
                    px,
                    py,
                ),
        decreases npcs.len() - k,
    {
        let pos: Vector2 = npcs[k].pos;
        if is_shown(discovered, pos, block_size) {
            let cx: i128 = marker_coord(xo, pos.x, scale, block_size);
            let cy: i128 = marker_coord(yo, pos.y, scale, block_size);
            draw_marker(fb, cx, cy, Color { r: 255, g: 0, b: 0, a: 255 });
        }
        k = k + 1;
    }
    let cx: i128 = marker_coord(xo, player.pos.x, scale, block_size);
    let cy: i128 = marker_coord(yo, player.pos.y, scale, block_size);
    draw_marker(fb, cx, cy, Color { r: 135, g: 206, b: 235, a: 255 });
}

} // verus!
