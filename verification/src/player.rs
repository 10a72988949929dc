//! The viewer: where it stands, where it looks, and how it moves.

use vstd::prelude::*;
use crate::geometry::{div_trunc, truncated, Vector2};
use crate::maze::{
    cell_coord, cell_index, cell_walkable, grid_of, is_walkable_cell, Grid, Maze,
};
use crate::trig::TrigTable;

verus! {

/// How far the viewer moves in one update along its line of sight or
/// across it.
pub const MOVE_SPEED: i64 = 10;

/// The viewer's pose. Angles are counted in steps of the direction table
/// in use; `fov` is the width of the field of view.
#[derive(Clone, Copy, Debug)]
pub struct Player {
    pub pos: Vector2,
    pub a: i32,
    pub fov: u32,
}

/// What the viewer asks for in one update.
#[derive(Clone, Copy, Debug)]
pub struct Input {
    /// Move along the line of sight, against it, to its right, to its
    /// left.
    pub forward: bool,
    pub backward: bool,
    pub right: bool,
    pub left: bool,
    /// Turn by this many steps.
    pub turn: i32,
}

/// Whether the point `(x, y)` can be stood on: its cell exists and is
/// open floor or an agent's starting cell. A maze without rows is open
/// everywhere.
pub open spec fn occupiable(g: Grid, x: int, y: int, block_size: int) -> bool {
    g.len() == 0 || cell_walkable(g, cell_index(x, block_size), cell_index(y, block_size))
}

/// Where a move from `from` to `to` ends. The whole move is taken where
/// `to` can be stood on. Otherwise each axis is tried by itself from
/// `from`, and taken where its end can be stood on. So a blocked move
/// ends in one of three ways: with one axis free the mover slides along
/// the wall; with both blocked it stays; and with both free it takes
/// both, and ends on `to` although `to` cannot be stood on. The last
/// happens where only the cell diagonally ahead is blocked.
pub open spec fn slide(g: Grid, from: Vector2, to: Vector2, block_size: int) -> Vector2 {
    if occupiable(g, to.x as int, to.y as int, block_size) {
        to
    } else {
        Vector2 {
            x: if occupiable(g, to.x as int, from.y as int, block_size) {
                to.x
            } else {
                from.x
            },
            y: if occupiable(g, from.x as int, to.y as int, block_size) {
                to.y
            } else {
                from.y
            },
        }
    }
}

/// A number brought into the range of a coordinate.
pub open spec fn clamp_coord(v: int) -> int {
    if v < i32::MIN {
        i32::MIN as int
    } else if v > i32::MAX {
        i32::MAX as int
    } else {
        v
    }
}

/// 1 for the first of two opposite wishes, -1 for the second, 0 for both
/// or neither.
pub open spec fn wish(plus: bool, minus: bool) -> int {
    (if plus { 1int } else { 0int }) - (if minus { 1int } else { 0int })
}

/// One component of the viewer's step: `along` times the direction of
/// sight plus `across` times the direction a quarter turn on, `MOVE_SPEED`
/// long, rounded toward zero.
pub open spec fn step_component(along: int, across: int, ahead: int, aside: int, scale: int) -> int {
    truncated((along * ahead + across * aside) * MOVE_SPEED, scale)
}

/// The viewer after one update: turned by `input.turn` (the angle is
/// kept within one full turn), then moved by its step, sliding along
/// walls.
pub open spec fn after_events(
    player: Player,
    input: Input,
    g: Grid,
    block_size: int,
    trig: &TrigTable,
) -> Player {
    let a = trig.step_of(player.a + input.turn);
    let quarter = trig.turn() / 4;
    let along = wish(input.forward, input.backward);
    let across = wish(input.right, input.left);
    let to = Vector2 {
        x: clamp_coord(
            player.pos.x + step_component(
                along,
                across,
                trig.cos_at(a),
                trig.cos_at(a + quarter),
                trig.scale as int,
            ),
        ) as i32,
        y: clamp_coord(
            player.pos.y + step_component(
                along,
                across,
                trig.sin_at(a),
                trig.sin_at(a + quarter),
                trig.scale as int,
            ),
        ) as i32,
    };
    Player { pos: slide(g, player.pos, to, block_size), a: a as i32, fov: player.fov }
}

/// Whether the point `(x, y)` can be stood on.
pub fn can_move_to(maze: &Maze, x: i32, y: i32, block_size: u32) -> (ok: bool)
    requires
        block_size > 0,
    ensures
        ok == occupiable(grid_of(maze), x as int, y as int, block_size as int),
{
    if maze.len() == 0 {
        return true;
    }
    let i: i64 = cell_coord(x, block_size);
    let j: i64 = cell_coord(y, block_size);
    is_walkable_cell(maze, i, j)
}

/// Where a move from `from` to `to` ends: at `to`, or slid along a wall,
/// or not at all. A move that is blocked as a whole while each of its
/// axes is free by itself ends at `to` all the same.
pub fn move_with_slide(maze: &Maze, from: Vector2, to: Vector2, block_size: u32) -> (end: Vector2)
    requires
        block_size > 0,
    ensures
        end == slide(grid_of(maze), from, to, block_size as int),
{
    if can_move_to(maze, to.x, to.y, block_size) {
        to
    } else {
        let x: i32 = if can_move_to(maze, to.x, from.y, block_size) {
            to.x
        } else {
            from.x
        };
        let y: i32 = if can_move_to(maze, from.x, to.y, block_size) {
            to.y
        } else {
            from.y
        };
        Vector2 { x, y }
    }
}

/// A number brought into the range of a coordinate.
pub fn clamp_to_coord(v: i64) -> (c: i32)
    ensures
        c == clamp_coord(v as int),
{
    if v < i32::MIN as i64 {
        i32::MIN
    } else if v > i32::MAX as i64 {
        i32::MAX
    } else {
        v as i32
    }
}

/// 1, -1 or 0 for two opposite wishes.
fn wish_of(plus: bool, minus: bool) -> (w: i64)
    ensures
        w == wish(plus, minus),
{
    let p: i64 = if plus { 1 } else { 0 };
    let m: i64 = if minus { 1 } else { 0 };
    p - m
}

/// One component of the viewer's step.
fn component(along: i64, across: i64, ahead: i32, aside: i32, scale: u32) -> (c: i64)
    requires
        -1 <= along <= 1,
        -1 <= across <= 1,
        scale > 0,
    ensures
        c == step_component(along as int, across as int, ahead as int, aside as int, scale as int),
        -0x1_0000_0000_0000 <= c <= 0x1_0000_0000_0000,
{
    proof {
        assert(-0x8000_0000 <= along * ahead <= 0x8000_0000) by (nonlinear_arith)
            requires
                -1 <= along <= 1,
                -0x8000_0000 <= ahead <= 0x8000_0000,
        ;
        assert(-0x8000_0000 <= across * aside <= 0x8000_0000) by (nonlinear_arith)
            requires
                -1 <= across <= 1,
                -0x8000_0000 <= aside <= 0x8000_0000,
        ;
    }
    let sum: i64 = along * (ahead as i64) + across * (aside as i64);
    div_trunc(sum * MOVE_SPEED, scale as u64)
}

/// Turns and moves the viewer as `input` asks: the angle changes by
/// `input.turn`, then the viewer steps `MOVE_SPEED` along or against its
/// line of sight and across it, as far as the walls allow.
pub fn process_events(
    player: &mut Player,
    input: &Input,
    maze: &Maze,
    block_size: u32,
    trig: &TrigTable,
)
    requires
        block_size > 0,
        trig.wf(),
    ensures
        *final(player) == after_events(
            *old(player),
            *input,
            grid_of(maze),
            block_size as int,
            trig,
        ),
{
    let a: usize = trig.step(player.a as i64 + input.turn as i64);
    let quarter: usize = trig.steps() / 4;
    let along: i64 = wish_of(input.forward, input.backward);
    let across: i64 = wish_of(input.right, input.left);
    let aq: i64 = (a + quarter) as i64;
    let dx: i64 = component(
        along,
        across,
        trig.cos_of(a as i64),
        trig.cos_of(aq),
        trig.scale,
    );
    let dy: i64 = component(
        along,
        across,
        trig.sin_of(a as i64),
        trig.sin_of(aq),
        trig.scale,
    );
    let to = Vector2 {
        x: clamp_to_coord(player.pos.x as i64 + dx),
        y: clamp_to_coord(player.pos.y as i64 + dy),
    };
    let end: Vector2 = move_with_slide(maze, player.pos, to, block_size);
    player.pos = end;
    player.a = a as i32;
}

/// A move whose end can be stood on is taken whole.
pub proof fn lemma_free_move(g: Grid, from: Vector2, to: Vector2, block_size: int)
    requires
        occupiable(g, to.x as int, to.y as int, block_size),
    ensures
        slide(g, from, to, block_size) == to,
{
}

/// A move into a corner stops: where the end of the move and the ends of
/// both of its axes by themselves are blocked, the mover stays where it
/// is.
pub proof fn lemma_corner_stops(g: Grid, from: Vector2, to: Vector2, block_size: int)
    requires
        !occupiable(g, to.x as int, to.y as int, block_size),
        !occupiable(g, to.x as int, from.y as int, block_size),
        !occupiable(g, from.x as int, to.y as int, block_size),
    ensures
        slide(g, from, to, block_size) == from,
{
}

/// A blocked move slides along the axis that is open: with x open and y
/// blocked the mover takes the x part of the move and keeps its y, and
/// the other way round.
pub proof fn lemma_slides_along_open_axis(g: Grid, from: Vector2, to: Vector2, block_size: int)
    requires
        !occupiable(g, to.x as int, to.y as int, block_size),
    ensures
        occupiable(g, to.x as int, from.y as int, block_size) && !occupiable(
            g,
            from.x as int,
            to.y as int,
            block_size,
        ) ==> slide(g, from, to, block_size) == (Vector2 { x: to.x, y: from.y }),
        !occupiable(g, to.x as int, from.y as int, block_size) && occupiable(
            g,
            from.x as int,
            to.y as int,
            block_size,
        ) ==> slide(g, from, to, block_size) == (Vector2 { x: from.x, y: to.y }),
{
}

/// A move that is blocked as a whole while each of its axes is free by
/// itself takes both axes: the mover ends on the point it asked for,
/// which cannot be stood on.
pub proof fn lemma_both_axes_free(g: Grid, from: Vector2, to: Vector2, block_size: int)
    requires
        !occupiable(g, to.x as int, to.y as int, block_size),
        occupiable(g, to.x as int, from.y as int, block_size),
        occupiable(g, from.x as int, to.y as int, block_size),
    ensures
        slide(g, from, to, block_size) == to,
{
}

/// A mover never passes through a wall along one axis. Each coordinate
/// of where it ends is the one it had or the one it asked for. Where the
/// whole move was blocked, a coordinate changes only if the move along
/// its axis alone ends on a point that can be stood on. Where the mover
/// ends can itself be stood on, unless the whole move was blocked and
/// both axes changed.
pub proof fn lemma_slide_stays_clear(g: Grid, from: Vector2, to: Vector2, block_size: int)
    requires
        occupiable(g, from.x as int, from.y as int, block_size),
    ensures
        ({
            let end = slide(g, from, to, block_size);
            let blocked = !occupiable(g, to.x as int, to.y as int, block_size);
            &&& end.x == from.x || end.x == to.x
            &&& end.y == from.y || end.y == to.y
            &&& !blocked ==> end == to
            &&& blocked && end.x != from.x ==> occupiable(
                g,
                end.x as int,
                from.y as int,
                block_size,
            )
            &&& blocked && end.y != from.y ==> occupiable(
                g,
                from.x as int,
                end.y as int,
                block_size,
            )
            &&& !(blocked && end.x != from.x && end.y != from.y) ==> occupiable(
                g,
                end.x as int,
                end.y as int,
                block_size,
            )
        }),
{
}

} // verus!
