//! What a session decides between frames: how large the frame is, and
//! whether the viewer has got out.

use vstd::prelude::*;
use crate::maze::{cell_in_bounds, cell_index, cell_indices_from_pos, grid_of, in_bounds, symbol_at, Grid, Maze};
use crate::player::Player;

verus! {

/// The size of the window where none is asked for.
pub const DEFAULT_WIDTH: i32 = 1300;

pub const DEFAULT_HEIGHT: i32 = 900;

/// The size that a window must exceed, each way.
pub const LEAST_SIZE: i32 = 200;

/// The size of the window: the one asked for where both numbers were
/// given and both exceed `LEAST_SIZE`, else the default.
pub open spec fn window_size_spec(width: Option<i32>, height: Option<i32>) -> (i32, i32) {
    match (width, height) {
        (Some(w), Some(h)) => if w > LEAST_SIZE && h > LEAST_SIZE {
            (w, h)
        } else {
            (DEFAULT_WIDTH, DEFAULT_HEIGHT)
        },
        _ => (DEFAULT_WIDTH, DEFAULT_HEIGHT),
    }
}

/// The size of the window for the numbers that were asked for, if any.
pub fn window_size(width: Option<i32>, height: Option<i32>) -> (size: (i32, i32))
    ensures
        size == window_size_spec(width, height),
{
    match (width, height) {
        (Some(w), Some(h)) => if w > LEAST_SIZE && h > LEAST_SIZE {
            (w, h)
        } else {
            (DEFAULT_WIDTH, DEFAULT_HEIGHT)
        },
        _ => (DEFAULT_WIDTH, DEFAULT_HEIGHT),
    }
}

/// One side of the frame that is drawn for a window: the window's side
/// divided by `render_scale`. A window without a size has no frame.
pub fn frame_side(window: i32, render_scale: u32) -> (side: u32)
    requires
        render_scale > 0,
    ensures
        side == (if window < 0 {
            0
        } else {
            window as int / render_scale as int
        }),
{
    if window < 0 {
        0
    } else {
        (window as u32) / render_scale
    }
}

/// Whether a viewer at `(x, y)` stands in a door that is open.
pub open spec fn escaped(g: Grid, x: int, y: int, block_size: int, doors_open: bool) -> bool {
    doors_open && cell_in_bounds(g, cell_index(x, block_size), cell_index(y, block_size))
        && g[cell_index(y, block_size)][cell_index(x, block_size)] == 'G'
}

/// Whether the viewer has got out: whether the doors are open and it
/// stands in one.
pub fn player_escaped(maze: &Maze, player: &Player, block_size: u32, doors_open: bool) -> (out: bool)
    requires
        block_size > 0,
    ensures
        out == escaped(
            grid_of(maze),
            player.pos.x as int,
            player.pos.y as int,
            block_size as int,
            doors_open,
        ),
{
    if !doors_open {
        return false;
    }
    let (i, j) = cell_indices_from_pos(player.pos.x, player.pos.y, block_size);
    if !in_bounds(maze, i, j) {
        return false;
    }
    symbol_at(maze, i, j) == 'G'
}

} // verus!
