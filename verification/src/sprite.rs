//! Agents and collectibles: where they start, how agents hunt the
//! viewer, and when a collectible is picked up.

use vstd::prelude::*;
use crate::anim::{phase_after, CoinAnimation};
use crate::geometry::{int_sqrt, magnitude, sqrt_floor_wide, truncated, Vector2};
use crate::maze::{
    cell_indices_from_pos, cell_index, cell_walkable, grid_of, is_walkable_cell, Grid, Maze,
};
use crate::path::{cell_center, next_step_bfs, next_step_spec};
use crate::player::{clamp_coord, clamp_to_coord, move_with_slide, slide, Player};

verus! {

/// An agent that hunts the viewer.
#[derive(Clone, Copy, Debug)]
pub struct NPC {
    pub pos: Vector2,
    /// How far the agent moves in one update, in tenths of a coordinate
    /// step.
    pub speed: i32,
}

impl NPC {
    /// An agent at `(x, y)`.
    pub fn new(x: i32, y: i32, speed: i32) -> (npc: NPC)
        ensures
            npc.pos == (Vector2 { x, y }),
            npc.speed == speed,
    {
        NPC { pos: Vector2 { x, y }, speed }
    }
}

/// Something to pick up.
#[derive(Clone, Copy, Debug)]
pub struct Coin {
    pub pos: Vector2,
    /// Set once the viewer has come close; never cleared.
    pub collected: bool,
    /// The phase of the animation, in steps of its cycle.
    pub animation_time: u32,
}

impl Coin {
    /// A collectible at `(x, y)`, not yet collected.
    pub fn new(x: i32, y: i32) -> (coin: Coin)
        ensures
            coin.pos == (Vector2 { x, y }),
            !coin.collected,
            coin.animation_time == 0,
    {
        Coin { pos: Vector2 { x, y }, collected: false, animation_time: 0 }
    }
}

/// A moment on the straight line between two cells: the cell reached,
/// and the error that decides which axis moves next.
pub struct Walk {
    pub x: int,
    pub y: int,
    pub err: int,
}

/// A straight line between two cells: where it ends, how far it runs
/// along x (`dx`, not negative) and along y (`dy`, not positive), and
/// which way it steps on each axis.
pub struct Line {
    pub x1: int,
    pub y1: int,
    pub dx: int,
    pub dy: int,
    pub sx: int,
    pub sy: int,
}

/// The line from cell `(x0, y0)` to cell `(x1, y1)`.
pub open spec fn line_between(x0: int, y0: int, x1: int, y1: int) -> Line {
    Line {
        x1,
        y1,
        dx: magnitude(x1 - x0),
        dy: -magnitude(y1 - y0),
        sx: if x0 < x1 {
            1
        } else {
            -1
        },
        sy: if y0 < y1 {
            1
        } else {
            -1
        },
    }
}

/// The next cell on the line: x moves where twice the error is at least
/// `dy`, y moves where it is at most `dx`, and both may.
pub open spec fn walk_step(l: Line, s: Walk) -> Walk {
    let e2 = 2 * s.err;
    let s1 = if e2 >= l.dy {
        Walk { x: s.x + l.sx, y: s.y, err: s.err + l.dy }
    } else {
        s
    };
    if e2 <= l.dx {
        Walk { x: s1.x, y: s1.y + l.sy, err: s1.err + l.dx }
    } else {
        s1
    }
}

/// Whether every cell of the line from `s` to its end can be walked on.
/// `fuel` bounds the cells still to come; a line from its own start needs
/// no more than `dx - dy`.
pub open spec fn sight_from(g: Grid, l: Line, s: Walk, fuel: nat) -> bool
    decreases fuel,
{
    if !cell_walkable(g, s.x, s.y) {
        false
    } else if s.x == l.x1 && s.y == l.y1 {
        true
    } else if fuel == 0 {
        false
    } else {
        sight_from(g, l, walk_step(l, s), (fuel - 1) as nat)
    }
}

/// Whether cell `(x1, y1)` can be seen from cell `(x0, y0)`: every cell
/// on the straight line between them, both ends included, can be walked
/// on.
pub open spec fn sight(g: Grid, x0: int, y0: int, x1: int, y1: int) -> bool {
    let l = line_between(x0, y0, x1, y1);
    sight_from(g, l, Walk { x: x0, y: y0, err: l.dx + l.dy }, (l.dx - l.dy) as nat)
}

/// Whether one cell can be seen from another.
fn cells_in_sight(maze: &Maze, x0: i64, y0: i64, x1: i64, y1: i64) -> (clear: bool)
    requires
        -0x8000_0000 <= x0 <= 0x7fff_ffff,
        -0x8000_0000 <= y0 <= 0x7fff_ffff,
        -0x8000_0000 <= x1 <= 0x7fff_ffff,
        -0x8000_0000 <= y1 <= 0x7fff_ffff,
    ensures
        clear == sight(grid_of(maze), x0 as int, y0 as int, x1 as int, y1 as int),
{
    let ghost g = grid_of(maze);
    let ghost l = line_between(x0 as int, y0 as int, x1 as int, y1 as int);
    let dx: i64 = if x1 - x0 < 0 { x0 - x1 } else { x1 - x0 };
    let ady: i64 = if y1 - y0 < 0 { y0 - y1 } else { y1 - y0 };
    let dy: i64 = -ady;
    let sx: i64 = if x0 < x1 { 1 } else { -1 };
    let sy: i64 = if y0 < y1 { 1 } else { -1 };
    let mut x: i64 = x0;
    let mut y: i64 = y0;
    let mut err: i64 = dx + dy;
    let mut seen: bool = false;
    let ghost mut ix: int = 0;
    let ghost mut iy: int = 0;
    let ghost mut fuel: nat = (dx + ady) as nat;
    proof {
        assert(0 * ady == 0) by (nonlinear_arith);
        assert(0 * dx == 0) by (nonlinear_arith);
    }
    loop
        invariant
            g == grid_of(maze),
            l == line_between(x0 as int, y0 as int, x1 as int, y1 as int),
            -0x8000_0000 <= x0 <= 0x7fff_ffff,
            -0x8000_0000 <= y0 <= 0x7fff_ffff,
            -0x8000_0000 <= x1 <= 0x7fff_ffff,
            -0x8000_0000 <= y1 <= 0x7fff_ffff,
            dx == l.dx,
            dy == l.dy,
            ady == -dy,
            sx == l.sx,
            sy == l.sy,
            0 <= ix <= dx,
            0 <= iy <= ady,
            x == (if x0 < x1 { x0 + ix } else { x0 - ix }),
            y == (if y0 < y1 { y0 + iy } else { y0 - iy }),
            err == dx - ady - ix * ady + iy * dx,
            -2 * ady - dx <= err <= 2 * dx + ady,
            fuel >= (dx - ix) + (ady - iy),
            sight(g, x0 as int, y0 as int, x1 as int, y1 as int) == sight_from(
                g,
                l,
                Walk { x: x as int, y: y as int, err: err as int },
                fuel,
            ),
        ensures
            seen == sight(grid_of(maze), x0 as int, y0 as int, x1 as int, y1 as int),
        decreases (dx - ix) + (ady - iy),
    {
        if !is_walkable_cell(maze, x, y) {
            seen = false;
            break;
        }
        if x == x1 && y == y1 {
            seen = true;
            break;
        }
        proof {
            assert(ix < dx || iy < ady);
            assert(0 <= ix * ady <= dx * ady) by (nonlinear_arith)
                requires
                    0 <= ix <= dx,
                    0 <= ady,
            ;
            assert(0 <= iy * dx <= ady * dx) by (nonlinear_arith)
                requires
                    0 <= iy <= ady,
                    0 <= dx,
            ;
            assert(dx * ady <= 0x1_0000_0000 * 0x1_0000_0000) by (nonlinear_arith)
                requires
                    0 <= dx <= 0x1_0000_0000,
                    0 <= ady <= 0x1_0000_0000,
            ;
            assert(ady * dx == dx * ady) by (nonlinear_arith);
            if ix == dx {
                // x has arrived: twice the error is below `dy`, so x stays.
                assert(dx * (1 + iy - ady) <= 0) by (nonlinear_arith)
                    requires
                        dx >= 0,
                        1 + iy - ady <= 0,
                ;
                assert(dx * (1 + iy - ady) == dx + iy * dx - dx * ady) by (nonlinear_arith);
                assert(2 * err < dy);
            }
            if iy == ady {
                // y has arrived: twice the error is above `dx`, so y stays.
                assert(ady * (dx - 1 - ix) >= 0) by (nonlinear_arith)
                    requires
                        ady >= 0,
                        dx - 1 - ix >= 0,
                ;
                assert(ady * (dx - 1 - ix) == ady * dx - ady - ix * ady) by (nonlinear_arith);
                assert(2 * err > dx);
            }
        }
        let ghost before = Walk { x: x as int, y: y as int, err: err as int };
        let e2: i64 = 2 * err;
        if e2 >= dy {
            proof {
                assert((ix + 1) * ady == ix * ady + ady) by (nonlinear_arith);
                ix = ix + 1;
            }
            err = err + dy;
            x = x + sx;
        }
        if e2 <= dx {
            proof {
                assert((iy + 1) * dx == iy * dx + dx) by (nonlinear_arith);
                iy = iy + 1;
            }
            err = err + dx;
            y = y + sy;
        }
        assert(Walk { x: x as int, y: y as int, err: err as int } == walk_step(l, before));
        proof {
            fuel = (fuel - 1) as nat;
        }
    }
    seen
}

/// Whether the cell of `(to_x, to_y)` can be seen from the cell of
/// `(from_x, from_y)`: whether every cell on the straight line between
/// them can be walked on.
pub fn line_of_sight(
    maze: &Maze,
    from_x: i32,
    from_y: i32,
    to_x: i32,
    to_y: i32,
    block_size: u32,
) -> (clear: bool)
    requires
        block_size > 0,
    ensures
        clear == sight(
            grid_of(maze),
            cell_index(from_x as int, block_size as int),
            cell_index(from_y as int, block_size as int),
            cell_index(to_x as int, block_size as int),
            cell_index(to_y as int, block_size as int),
        ),
{
    let (x0, y0) = cell_indices_from_pos(from_x, from_y, block_size);
    let (x1, y1) = cell_indices_from_pos(to_x, to_y, block_size);
    cells_in_sight(maze, x0, y0, x1, y1)
}

/// Nothing is seen from a cell, or of a cell, that cannot be walked on.
pub proof fn lemma_sight_needs_open_ends(g: Grid, x0: int, y0: int, x1: int, y1: int)
    requires
        sight(g, x0, y0, x1, y1),
    ensures
        cell_walkable(g, x0, y0),
        cell_walkable(g, x1, y1),
{
    let l = line_between(x0, y0, x1, y1);
    lemma_sight_from_open_end(g, l, Walk { x: x0, y: y0, err: l.dx + l.dy }, (l.dx - l.dy) as nat);
}

/// A walk that sees through starts and ends on open cells.
proof fn lemma_sight_from_open_end(g: Grid, l: Line, s: Walk, fuel: nat)
    requires
        sight_from(g, l, s, fuel),
    ensures
        cell_walkable(g, s.x, s.y),
        cell_walkable(g, l.x1, l.y1),
    decreases fuel,
{
    if !(s.x == l.x1 && s.y == l.y1) {
        lemma_sight_from_open_end(g, l, walk_step(l, s), (fuel - 1) as nat);
    }
}

/// The speed of an agent fresh from its starting cell: four and a half
/// coordinate steps an update.
pub const NPC_SPEED: i32 = 45;

/// The tenths that a speed is counted in.
pub const SPEED_UNIT: i64 = 10;

/// The places of the first `n` cells of a row that hold `symbol`: the
/// middle of each, in the order of the row.
pub open spec fn spawns_in_row(row: Seq<char>, j: int, symbol: char, block_size: int, n: nat) -> Seq<
    Vector2,
>
    decreases n,
{
    if n == 0 {
        Seq::empty()
    } else {
        let rest = spawns_in_row(row, j, symbol, block_size, (n - 1) as nat);
        if row[n - 1] == symbol {
            rest.push(
                Vector2 {
                    x: clamp_coord(cell_center(n - 1, block_size)) as i32,
                    y: clamp_coord(cell_center(j, block_size)) as i32,
                },
            )
        } else {
            rest
        }
    }
}

/// The places of the cells of the first `m` rows that hold `symbol`, row
/// by row.
pub open spec fn spawns_in(g: Grid, symbol: char, block_size: int, m: nat) -> Seq<Vector2>
    decreases m,
{
    if m == 0 {
        Seq::empty()
    } else {
        spawns_in(g, symbol, block_size, (m - 1) as nat) + spawns_in_row(
            g[m - 1],
            m - 1,
            symbol,
            block_size,
            g[m - 1].len(),
        )
    }
}

/// The middle of cell `c` along one axis, as a coordinate.
fn spawn_coord(c: usize, block_size: u32) -> (m: i32)
    ensures
        m == clamp_coord(cell_center(c as int, block_size as int)),
{
    proof {
        assert(0 <= c * block_size <= 0xffff_ffff_ffff_ffff * 0xffff_ffff) by (nonlinear_arith)
            requires
                0 <= c <= 0xffff_ffff_ffff_ffff,
                0 <= block_size <= 0xffff_ffff,
        ;
    }
    let m: u128 = (c as u128) * (block_size as u128) + (block_size / 2) as u128;
    if m > 0x7fff_ffff {
        0x7fff_ffff
    } else {
        m as i32
    }
}

/// The middle of every cell of the maze that holds `symbol`, row by row.
pub fn spawn_points(maze: &Maze, symbol: char, block_size: u32) -> (out: Vec<Vector2>)
    ensures
        out@ == spawns_in(grid_of(maze), symbol, block_size as int, maze@.len()),
{
    let ghost g = grid_of(maze);
    let mut out: Vec<Vector2> = Vec::new();
    let mut ry: usize = 0;
    while ry < maze.len()
        invariant
            g == grid_of(maze),
            ry <= maze.len(),
            out@ == spawns_in(g, symbol, block_size as int, ry as nat),
        decreases maze.len() - ry,
    {
        let ghost before = out@;
        let cy: i32 = spawn_coord(ry, block_size);
        let mut rx: usize = 0;
        while rx < maze[ry].len()
            invariant
                g == grid_of(maze),
                ry < maze.len(),
                rx <= maze@[ry as int]@.len(),
                cy == clamp_coord(cell_center(ry as int, block_size as int)),
                out@ == before + spawns_in_row(
                    g[ry as int],
                    ry as int,
                    symbol,
                    block_size as int,
                    rx as nat,
                ),
            decreases maze@[ry as int]@.len() - rx,
        {
            if maze[ry][rx] == symbol {
                out.push(Vector2 { x: spawn_coord(rx, block_size), y: cy });
            }
            rx = rx + 1;
        }
        ry = ry + 1;
    }
    out
}

/// The agents of a maze: one in the middle of each cell marked `'R'`,
/// row by row, each with the speed `NPC_SPEED`.
pub fn load_npcs_from_maze(maze: &Maze, block_size: u32) -> (out: Vec<NPC>)
    ensures
        out@.len() == spawns_in(grid_of(maze), 'R', block_size as int, maze@.len()).len(),
        forall|k: int|
            0 <= k < out@.len() ==> (#[trigger] out@[k]).pos == spawns_in(
                grid_of(maze),
                'R',
                block_size as int,
                maze@.len(),
            )[k] && out@[k].speed == NPC_SPEED,
{
    let points: Vec<Vector2> = spawn_points(maze, 'R', block_size);
    let mut out: Vec<NPC> = Vec::new();
    let mut k: usize = 0;
    while k < points.len()
        invariant
            k <= points.len(),
            out@.len() == k,
            forall|m: int|
                0 <= m < k ==> (#[trigger] out@[m]).pos == points@[m] && out@[m].speed
                    == NPC_SPEED,
        decreases points.len() - k,
    {
        out.push(NPC { pos: points[k], speed: NPC_SPEED });
        k = k + 1;
    }
    out
}

/// The collectibles of a maze: one in the middle of each cell marked
/// `'C'`, row by row, none of them collected.
pub fn load_coins_from_maze(maze: &Maze, block_size: u32) -> (out: Vec<Coin>)
    ensures
        out@.len() == spawns_in(grid_of(maze), 'C', block_size as int, maze@.len()).len(),
        forall|k: int|
            0 <= k < out@.len() ==> (#[trigger] out@[k]).pos == spawns_in(
                grid_of(maze),
                'C',
                block_size as int,
                maze@.len(),
            )[k] && !out@[k].collected && out@[k].animation_time == 0,
{
    let points: Vec<Vector2> = spawn_points(maze, 'C', block_size);
    let mut out: Vec<Coin> = Vec::new();
    let mut k: usize = 0;
    while k < points.len()
        invariant
            k <= points.len(),
            out@.len() == k,
            forall|m: int|
                0 <= m < k ==> (#[trigger] out@[m]).pos == points@[m] && !out@[m].collected
                    && out@[m].animation_time == 0,
        decreases points.len() - k,
    {
        out.push(Coin { pos: points[k], collected: false, animation_time: 0 });
        k = k + 1;
    }
    out
}

/// The square of the distance between two points.
pub open spec fn distance_squared(a: Vector2, x: int, y: int) -> int {
    (x - a.x) * (x - a.x) + (y - a.y) * (y - a.y)
}

/// Whether an agent at `pos` touches the viewer at `(x, y)`: whether
/// they are no more than a quarter of a cell apart.
pub open spec fn touches(pos: Vector2, x: int, y: int, block_size: int) -> bool {
    16 * distance_squared(pos, x, y) <= block_size * block_size
}

/// One component of an agent's step: the part `d / len` of its speed,
/// rounded toward zero.
pub open spec fn steer(d: int, speed: int, len: int) -> int {
    truncated(d * speed, SPEED_UNIT * len)
}

/// Where an agent wants to be after one update on its way to `(tx, ty)`:
/// its speed further along the straight line there.
pub open spec fn heading(npc: NPC, tx: int, ty: int) -> Vector2 {
    let dx = tx - npc.pos.x;
    let dy = ty - npc.pos.y;
    let root = int_sqrt((dx * dx + dy * dy) as nat) as int;
    let len = if root < 1 {
        1
    } else {
        root
    };
    Vector2 {
        x: clamp_coord(npc.pos.x + steer(dx, npc.speed as int, len)) as i32,
        y: clamp_coord(npc.pos.y + steer(dy, npc.speed as int, len)) as i32,
    }
}

/// An agent after one update. One that touches the viewer stays where
/// it is. Any other that sees the viewer heads straight for it, and one
/// that does not see it heads for the next cell on a shortest route to
/// the viewer's cell, or stays where there is no route. Walls are slid
/// along.
pub open spec fn npc_after(g: Grid, npc: NPC, x: int, y: int, block_size: int) -> NPC {
    if touches(npc.pos, x, y, block_size) {
        npc
    } else if sight(
        g,
        cell_index(npc.pos.x as int, block_size),
        cell_index(npc.pos.y as int, block_size),
        cell_index(x, block_size),
        cell_index(y, block_size),
    ) {
        NPC { pos: slide(g, npc.pos, heading(npc, x, y), block_size), speed: npc.speed }
    } else {
        match next_step_spec(g, npc.pos.x as int, npc.pos.y as int, x, y, block_size) {
            Some(t) => NPC {
                pos: slide(g, npc.pos, heading(npc, t.0, t.1), block_size),
                speed: npc.speed,
            },
            None => npc,
        }
    }
}

/// Whether any of the first `n` agents touches the viewer.
pub open spec fn any_touches(npcs: Seq<NPC>, x: int, y: int, block_size: int, n: int) -> bool {
    exists|k: int| 0 <= k < n && touches(#[trigger] npcs[k].pos, x, y, block_size)
}

/// The square of the distance between an agent and a point.
fn squared_distance(pos: Vector2, x: i64, y: i64) -> (d: u128)
    requires
        -0x4_0000_0000 <= x <= 0x4_0000_0000,
        -0x4_0000_0000 <= y <= 0x4_0000_0000,
    ensures
        d == distance_squared(pos, x as int, y as int),
        d <= 0x100_0000_0000_0000_0000,
{
    let dx: i128 = x as i128 - pos.x as i128;
    let dy: i128 = y as i128 - pos.y as i128;
    proof {
        assert(0 <= dx * dx <= 0x8_0000_0000 * 0x8_0000_0000) by (nonlinear_arith)
            requires
                -0x8_0000_0000 <= dx <= 0x8_0000_0000,
        ;
        assert(0 <= dy * dy <= 0x8_0000_0000 * 0x8_0000_0000) by (nonlinear_arith)
            requires
                -0x8_0000_0000 <= dy <= 0x8_0000_0000,
        ;
    }
    (dx * dx + dy * dy) as u128
}

/// One component of an agent's step.
fn steer_by(d: i64, speed: i32, len: u64) -> (v: i64)
    requires
        -0x8_0000_0000 <= d <= 0x8_0000_0000,
        1 <= len <= 0x1_0000_0000_0000,
    ensures
        v == steer(d as int, speed as int, len as int),
        -0x7000_0000_0000_0000 <= v <= 0x7000_0000_0000_0000,
{
    proof {
        assert(-0x8_0000_0000 * 0x8000_0000 <= d * speed <= 0x8_0000_0000 * 0x8000_0000)
            by (nonlinear_arith)
            requires
                -0x8_0000_0000 <= d <= 0x8_0000_0000,
                -0x8000_0000 <= speed <= 0x8000_0000,
        ;
    }
    let p: i128 = (d as i128) * (speed as i128);
    let by: u128 = 10 * (len as u128);
    let m: u128 = if p < 0 { (-p) as u128 } else { p as u128 };
    proof {
        vstd::arithmetic::div_mod::lemma_div_is_ordered_by_denominator(m as int, 10, by as int);
        assert((m as int) / (by as int) >= 0) by (nonlinear_arith)
            requires
                m >= 0,
                by >= 1,
        ;
        assert((m as int) / 10 <= 0x6666_6666_6666_6667);
    }
    let q: u128 = m / by;
    if p < 0 {
        -(q as i64)
    } else {
        q as i64
    }
}

/// Where an agent wants to be after one update on its way to `(tx, ty)`.
fn heading_of(npc: &NPC, tx: i64, ty: i64) -> (to: Vector2)
    requires
        -0x4_0000_0000 <= tx <= 0x4_0000_0000,
        -0x4_0000_0000 <= ty <= 0x4_0000_0000,
    ensures
        to == heading(*npc, tx as int, ty as int),
{
    let sq: u128 = squared_distance(npc.pos, tx, ty);
    let root: u64 = sqrt_floor_wide(sq);
    let len: u64 = if root < 1 { 1 } else { root };
    let vx: i64 = steer_by(tx - npc.pos.x as i64, npc.speed, len);
    let vy: i64 = steer_by(ty - npc.pos.y as i64, npc.speed, len);
    Vector2 {
        x: clamp_to_coord(npc.pos.x as i64 + vx),
        y: clamp_to_coord(npc.pos.y as i64 + vy),
    }
}

/// One agent after one update.
fn update_npc(npc: &NPC, player: &Player, maze: &Maze, block_size: u32) -> (r: NPC)
    requires
        block_size > 0,
    ensures
        r == npc_after(
            grid_of(maze),
            *npc,
            player.pos.x as int,
            player.pos.y as int,
            block_size as int,
        ),
{
    let px: i64 = player.pos.x as i64;
    let py: i64 = player.pos.y as i64;
    if is_touching(npc.pos, player, block_size) {
        return *npc;
    }
    if line_of_sight(maze, npc.pos.x, npc.pos.y, player.pos.x, player.pos.y, block_size) {
        let to: Vector2 = heading_of(npc, px, py);
        NPC { pos: move_with_slide(maze, npc.pos, to, block_size), speed: npc.speed }
    } else {
        match next_step_bfs(maze, npc.pos.x, npc.pos.y, player.pos.x, player.pos.y, block_size) {
            Some(t) => {
                let to: Vector2 = heading_of(npc, t.0, t.1);
                NPC { pos: move_with_slide(maze, npc.pos, to, block_size), speed: npc.speed }
            },
            None => *npc,
        }
    }
}

/// Whether an agent at `pos` touches the viewer.
fn is_touching(pos: Vector2, player: &Player, block_size: u32) -> (t: bool)
    ensures
        t == touches(pos, player.pos.x as int, player.pos.y as int, block_size as int),
{
    let sq: u128 = squared_distance(pos, player.pos.x as i64, player.pos.y as i64);
    proof {
        assert(0 <= block_size * block_size <= 0xffff_ffff * 0xffff_ffff) by (nonlinear_arith)
            requires
                0 <= block_size <= 0xffff_ffff,
        ;
    }
    16 * sq <= (block_size as u128) * (block_size as u128)
}

/// Moves every agent by one update and says whether any of them touches
/// the viewer.
///
/// An agent touches the viewer within a quarter of a cell, and one that
/// does stays where it is. Every other agent moves as `npc_after` says:
/// straight at the viewer where it sees it, else along a shortest route,
/// sliding along walls. One agent that touches does not keep the others
/// from moving.
pub fn update_npcs(npcs: &mut Vec<NPC>, player: &Player, maze: &Maze, block_size: u32) -> (touched:
    bool)
    requires
        block_size > 0,
    ensures
        final(npcs)@.len() == old(npcs)@.len(),
        forall|k: int|
            0 <= k < old(npcs)@.len() ==> #[trigger] final(npcs)@[k] == npc_after(
                grid_of(maze),
                old(npcs)@[k],
                player.pos.x as int,
                player.pos.y as int,
                block_size as int,
            ),
        touched == any_touches(
            old(npcs)@,
            player.pos.x as int,
            player.pos.y as int,
            block_size as int,
            old(npcs)@.len() as int,
        ),
{
    let mut touched: bool = false;
    let n: usize = npcs.len();
    let mut k: usize = 0;
    while k < n
        invariant
            block_size > 0,
            k <= n,
            n == npcs@.len(),
            n == old(npcs)@.len(),
            forall|m: int|
                0 <= m < k ==> #[trigger] npcs@[m] == npc_after(
                    grid_of(maze),
                    old(npcs)@[m],
                    player.pos.x as int,
                    player.pos.y as int,
                    block_size as int,
                ),
            forall|m: int| k <= m < n ==> #[trigger] npcs@[m] == old(npcs)@[m],
            touched == any_touches(
                old(npcs)@,
                player.pos.x as int,
                player.pos.y as int,
                block_size as int,
                k as int,
            ),
        decreases n - k,
    {
        let npc: NPC = npcs[k];
        if is_touching(npc.pos, player, block_size) {
            touched = true;
        }
        let moved: NPC = update_npc(&npc, player, maze, block_size);
        npcs[k] = moved;
        k = k + 1;
    }
    touched
}

/// Whether a collectible at `pos` is within `reach` of the viewer at
/// `(x, y)`.
pub open spec fn in_reach(pos: Vector2, x: int, y: int, reach: int) -> bool {
    distance_squared(pos, x, y) <= reach * reach
}

/// A collectible after one update: collected once the viewer is within
/// reach, and for good; its animation `delta` steps on.
pub open spec fn coin_after(coin: Coin, x: int, y: int, reach: int, delta: int, cycle: int) -> Coin {
    Coin {
        pos: coin.pos,
        collected: coin.collected || in_reach(coin.pos, x, y, reach),
        animation_time: phase_after(coin.animation_time as int, delta, cycle) as u32,
    }
}

/// How many of the first `n` collectibles are not yet collected.
pub open spec fn uncollected(coins: Seq<Coin>, n: nat) -> nat
    decreases n,
{
    if n == 0 {
        0
    } else {
        uncollected(coins, (n - 1) as nat) + (if coins[n - 1].collected {
            0nat
        } else {
            1nat
        })
    }
}

/// How many of the first `n` collectibles the viewer at `(x, y)` picks
/// up: those not yet collected that are within reach.
pub open spec fn picked_up(coins: Seq<Coin>, x: int, y: int, reach: int, n: nat) -> nat
    decreases n,
{
    if n == 0 {
        0
    } else {
        picked_up(coins, x, y, reach, (n - 1) as nat) + (if !coins[n - 1].collected && in_reach(
            coins[n - 1].pos,
            x,
            y,
            reach,
        ) {
            1nat
        } else {
            0nat
        })
    }
}

/// Updates every collectible: one within `reach` of the viewer becomes
/// collected, and every animation moves `delta` steps on in its cycle of
/// `cycle` steps. Returns how many were picked up by this update.
pub fn update_coins(coins: &mut Vec<Coin>, player: &Player, reach: u32, delta: u32, cycle: u32) -> (count:
    usize)
    requires
        cycle > 0,
    ensures
        final(coins)@.len() == old(coins)@.len(),
        forall|k: int|
            0 <= k < old(coins)@.len() ==> #[trigger] final(coins)@[k] == coin_after(
                old(coins)@[k],
                player.pos.x as int,
                player.pos.y as int,
                reach as int,
                delta as int,
                cycle as int,
            ),
        count == picked_up(
            old(coins)@,
            player.pos.x as int,
            player.pos.y as int,
            reach as int,
            old(coins)@.len(),
        ),
        uncollected(final(coins)@, final(coins)@.len()) + count == uncollected(
            old(coins)@,
            old(coins)@.len(),
        ),
{
    let n: usize = coins.len();
    let mut count: usize = 0;
    let mut k: usize = 0;
    while k < n
        invariant
            cycle > 0,
            k <= n,
            n == coins@.len(),
            n == old(coins)@.len(),
            count <= k,
            forall|m: int|
                0 <= m < k ==> #[trigger] coins@[m] == coin_after(
                    old(coins)@[m],
                    player.pos.x as int,
                    player.pos.y as int,
                    reach as int,
                    delta as int,
                    cycle as int,
                ),
            forall|m: int| k <= m < n ==> #[trigger] coins@[m] == old(coins)@[m],
            count == picked_up(
                old(coins)@,
                player.pos.x as int,
                player.pos.y as int,
                reach as int,
                k as nat,
            ),
            uncollected(coins@, k as nat) + count == uncollected(old(coins)@, k as nat),
        decreases n - k,
    {
        let coin: Coin = coins[k];
        let sq: u128 = squared_distance(coin.pos, player.pos.x as i64, player.pos.y as i64);
        proof {
            assert(0 <= reach * reach <= 0xffff_ffff * 0xffff_ffff) by (nonlinear_arith)
                requires
                    0 <= reach <= 0xffff_ffff,
            ;
        }
        let near: bool = sq <= (reach as u128) * (reach as u128);
        if !coin.collected && near {
            count = count + 1;
        }
        let ghost before = coins@;
        coins[k] = Coin {
            pos: coin.pos,
            collected: coin.collected || near,
            animation_time: CoinAnimation::update_time(coin.animation_time, delta, cycle),
        };
        proof {
            lemma_uncollected_prefix(before, coins@, k as nat);
        }
        k = k + 1;
    }
    count
}

/// What lies behind the first `n` collectibles does not count among
/// them.
proof fn lemma_uncollected_prefix(a: Seq<Coin>, b: Seq<Coin>, n: nat)
    requires
        n <= a.len(),
        n <= b.len(),
        forall|k: int| 0 <= k < n ==> a[k] == b[k],
    ensures
        uncollected(a, n) == uncollected(b, n),
    decreases n,
{
    if n > 0 {
        lemma_uncollected_prefix(a, b, (n - 1) as nat);
    }
}

/// How many collectibles are still to be collected.
pub fn remaining(coins: &Vec<Coin>) -> (left: usize)
    ensures
        left == uncollected(coins@, coins@.len()),
{
    let mut left: usize = 0;
    let mut k: usize = 0;
    while k < coins.len()
        invariant
            k <= coins.len(),
            left <= k,
            left == uncollected(coins@, k as nat),
        decreases coins.len() - k,
    {
        if !coins[k].collected {
            left = left + 1;
        }
        k = k + 1;
    }
    left
}

/// Whether the doors stand open: whether nothing is left to collect.
pub fn doors_open(coins: &Vec<Coin>) -> (open: bool)
    ensures
        open == (uncollected(coins@, coins@.len()) == 0),
{
    remaining(coins) == 0
}

/// A collected collectible stays collected, whatever the viewer does.
pub proof fn lemma_collected_stays(coin: Coin, x: int, y: int, reach: int, delta: int, cycle: int)
    requires
        coin.collected,
    ensures
        coin_after(coin, x, y, reach, delta, cycle).collected,
{
}

/// A collected collectible does not count among those still to be
/// collected: the count is the same with it as without it.
pub proof fn lemma_collected_does_not_count(coins: Seq<Coin>, coin: Coin)
    requires
        coin.collected,
    ensures
        uncollected(coins.push(coin), coins.len() + 1) == uncollected(coins, coins.len()),
{
    lemma_uncollected_prefix(coins, coins.push(coin), coins.len());
}

} // verus!
