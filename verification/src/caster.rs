//! The ray caster: a walk from cell to cell along a ray, until a cell
//! blocks it.
//!
//! The ray leaves a point in a whole-number direction `(dx, dy)`. It
//! reaches the next boundary across the x axis after covering `side_x`
//! coordinate steps along x, that is at time `side_x / |dx|`, and the next
//! one across the y axis at time `side_y / |dy|`; a zero component never
//! crosses. The walk takes whichever crossing comes first. Times are
//! compared by cross-multiplying, so no division rounds.

use vstd::prelude::*;
use vstd::arithmetic::div_mod::lemma_fundamental_div_mod;
use vstd::arithmetic::div_mod::lemma_mod_bound;
use vstd::arithmetic::div_mod::lemma_multiply_divide_le;
use crate::geometry::{int_sqrt, lemma_int_sqrt_unique, magnitude, magnitude_of, sqrt_floor_wide};
use crate::maze::{
    cell_coord, cell_in_bounds, cell_index, cell_kind, cell_walkable, grid_of, in_bounds,
    passable, symbol_at, wall_free, Grid, Maze,
};
use crate::player::Player;

verus! {

/// The most cells a ray enters before the walk gives up.
pub const MAX_STEPS: u32 = 2000;

/// The distance reported when nothing was hit.
pub const NO_HIT_DISTANCE: u64 = 2000;

/// What a ray struck.
#[derive(Clone, Copy, Debug)]
pub struct Intersect {
    /// The length of the ray from its origin to the impact, rounded down.
    pub distance: u64,
    /// The symbol of the cell that stopped the ray; `' '` when none did.
    pub impact: char,
    /// The point of impact.
    pub hit_x: i64,
    pub hit_y: i64,
    /// 0 when the ray entered the cell across the x axis (through one of
    /// its sides that run along y), 1 when across the y axis.
    pub side: u8,
}

/// An `Intersect` in unbounded numbers.
pub struct Hit {
    pub distance: int,
    pub impact: char,
    pub hit_x: int,
    pub hit_y: int,
    pub side: int,
}

impl View for Intersect {
    type V = Hit;

    open spec fn view(&self) -> Hit {
        Hit {
            distance: self.distance as int,
            impact: self.impact,
            hit_x: self.hit_x as int,
            hit_y: self.hit_y as int,
            side: self.side as int,
        }
    }
}

/// A ray: its origin, its direction, and the size of the cells it crosses.
pub struct Ray {
    pub ox: int,
    pub oy: int,
    pub dx: int,
    pub dy: int,
    pub b: int,
}

/// A moment of the walk: the cell the ray is in, and how far along each
/// axis the origin is from the next boundary across that axis.
pub struct March {
    pub map_x: int,
    pub map_y: int,
    pub side_x: int,
    pub side_y: int,
}

/// `base` moved by `amount` in the direction of `dir`; a zero `dir`
/// counts as positive.
pub open spec fn shift(base: int, dir: int, amount: int) -> int {
    if dir < 0 {
        base - amount
    } else {
        base + amount
    }
}

/// How far `coord` is from the first cell boundary in the direction of
/// `dir`.
pub open spec fn first_crossing(coord: int, dir: int, b: int) -> int {
    if dir < 0 {
        coord - cell_index(coord, b) * b
    } else {
        (cell_index(coord, b) + 1) * b - coord
    }
}

/// The walk before its first step.
pub open spec fn march_start(r: Ray) -> March {
    March {
        map_x: cell_index(r.ox, r.b),
        map_y: cell_index(r.oy, r.b),
        side_x: first_crossing(r.ox, r.dx, r.b),
        side_y: first_crossing(r.oy, r.dy, r.b),
    }
}

/// Whether the next boundary that the ray meets lies across the x axis:
/// `side_x / |dx| < side_y / |dy|`, cross-multiplied. A tie goes to y.
pub open spec fn crosses_x(r: Ray, s: March) -> bool {
    s.side_x * magnitude(r.dy) < s.side_y * magnitude(r.dx)
}

/// The walk one cell further.
pub open spec fn march_step(r: Ray, s: March) -> March {
    if crosses_x(r, s) {
        March { map_x: shift(s.map_x, r.dx, 1), side_x: s.side_x + r.b, ..s }
    } else {
        March { map_y: shift(s.map_y, r.dy, 1), side_y: s.side_y + r.b, ..s }
    }
}

/// The answer when nothing stops the ray: a fixed distance, the empty
/// symbol, and the origin as the point of impact.
pub open spec fn no_hit(r: Ray) -> Hit {
    Hit { distance: NO_HIT_DISTANCE as int, impact: ' ', hit_x: r.ox, hit_y: r.oy, side: 0 }
}

/// How far the ray has moved along the other axis when it has covered
/// `travel` along the axis it crosses, rounded toward the origin.
pub open spec fn drift(travel: int, d_other: int, d_axis: int) -> int {
    (travel * magnitude(d_other)) / magnitude(d_axis)
}

/// The impact when the step out of `s` enters a blocking cell. The ray
/// has then covered `side_x` along x (or `side_y` along y): the boundary
/// is where it strikes.
pub open spec fn hit_at(g: Grid, r: Ray, s: March) -> Hit {
    let n = march_step(r, s);
    if crosses_x(r, s) {
        let t = s.side_x;
        let o = drift(t, r.dy, r.dx);
        Hit {
            distance: int_sqrt((t * t + o * o) as nat) as int,
            impact: g[n.map_y][n.map_x],
            hit_x: shift(r.ox, r.dx, t),
            hit_y: shift(r.oy, r.dy, o),
            side: 0,
        }
    } else {
        let t = s.side_y;
        let o = drift(t, r.dx, r.dy);
        Hit {
            distance: int_sqrt((t * t + o * o) as nat) as int,
            impact: g[n.map_y][n.map_x],
            hit_x: shift(r.ox, r.dx, o),
            hit_y: shift(r.oy, r.dy, t),
            side: 1,
        }
    }
}

/// What the ray strikes when it walks on from `s` with `budget` steps
/// left. It stops with an impact at the first cell whose symbol is not
/// passable, and with no hit when it leaves the grid or the budget runs
/// out.
pub open spec fn cast_from(g: Grid, r: Ray, s: March, budget: nat) -> Hit
    decreases budget,
{
    if budget == 0 {
        no_hit(r)
    } else {
        let n = march_step(r, s);
        if !cell_in_bounds(g, n.map_x, n.map_y) {
            no_hit(r)
        } else if !passable(g[n.map_y][n.map_x]) {
            hit_at(g, r, s)
        } else {
            cast_from(g, r, n, (budget - 1) as nat)
        }
    }
}

/// What a ray strikes in a grid. A ray without a direction strikes
/// nothing.
pub open spec fn cast_spec(g: Grid, r: Ray) -> Hit {
    if r.dx == 0 && r.dy == 0 {
        no_hit(r)
    } else {
        cast_from(g, r, march_start(r), MAX_STEPS as nat)
    }
}

/// The ray that leaves `(x, y)` in direction `(dx, dy)`.
pub open spec fn ray_from(x: int, y: int, dx: int, dy: int, block_size: int) -> Ray {
    Ray { ox: x, oy: y, dx, dy, b: block_size }
}

/// How far a coordinate is from the first cell boundary in the direction
/// of `dir`.
fn first_side(coord: i32, dir: i32, block_size: u32) -> (side: u64)
    requires
        block_size > 0,
    ensures
        side == first_crossing(coord as int, dir as int, block_size as int),
        side <= block_size,
        dir >= 0 ==> side > 0,
{
    let q: i64 = cell_coord(coord, block_size);
    proof {
        lemma_fundamental_div_mod(coord as int, block_size as int);
        lemma_mod_bound(coord as int, block_size as int);
        assert(q * block_size == block_size * q) by (nonlinear_arith);
    }
    let below: i64 = q * (block_size as i64);
    let rem: i64 = coord as i64 - below;
    if dir < 0 {
        rem as u64
    } else {
        assert((q + 1) * block_size == q * block_size + block_size) by (nonlinear_arith);
        (block_size as i64 - rem) as u64
    }
}

/// The answer when nothing stops a ray that left `pos`.
fn miss(x: i32, y: i32) -> (hit: Intersect)
    ensures
        hit.distance == NO_HIT_DISTANCE,
        forall|dx: int, dy: int, b: int| hit@ == no_hit(#[trigger] ray_from(x as int, y as int, dx, dy, b)),
{
    Intersect { distance: NO_HIT_DISTANCE, impact: ' ', hit_x: x as i64, hit_y: y as i64, side: 0 }
}

/// The impact of a ray that has covered `travel` along the axis it
/// crosses, when `|d_other| * travel` over `|d_axis|` stays under `bound`:
/// the drift along the other axis and the length of the ray.
fn drift_and_length(travel: u64, d_other: u32, d_axis: u32, bound: u64) -> (r: (u64, u64))
    requires
        d_axis > 0,
        travel <= 0x1000_0000_0000,
        bound <= 0x1000_0000_0000,
        travel * d_other <= bound * d_axis,
    ensures
        r.0 == (travel * d_other) / (d_axis as int),
        r.0 <= bound,
        r.1 == int_sqrt((travel * travel + r.0 * r.0) as nat),
        r.1 < 0x1_0000_0000_0000,
{
    proof {
        assert(travel * d_other <= 0x1000_0000_0000 * 0xffff_ffff) by (nonlinear_arith)
            requires
                0 <= travel <= 0x1000_0000_0000,
                0 <= d_other <= 0xffff_ffff,
        ;
    }
    let p: u128 = (travel as u128) * (d_other as u128);
    let o: u128 = p / (d_axis as u128);
    proof {
        assert(d_axis * bound == bound * d_axis) by (nonlinear_arith);
        lemma_multiply_divide_le(p as int, d_axis as int, bound as int);
        assert(travel * travel <= 0x1000_0000_0000 * 0x1000_0000_0000) by (nonlinear_arith)
            requires
                0 <= travel <= 0x1000_0000_0000,
        ;
        assert(o * o <= 0x1000_0000_0000 * 0x1000_0000_0000) by (nonlinear_arith)
            requires
                0 <= o <= 0x1000_0000_0000,
        ;
    }
    let sum: u128 = (travel as u128) * (travel as u128) + o * o;
    let len: u64 = sqrt_floor_wide(sum);
    (o as u64, len)
}

/// Casts a ray from the viewer's position in direction `(dir_x, dir_y)`
/// and reports the first cell that blocks it.
///
/// The ray walks from cell to cell, at most `MAX_STEPS` of them. A cell
/// blocks unless its symbol is passable. When the ray leaves the grid,
/// runs out of steps or has no direction, the answer is the fixed
/// no-hit value.
pub fn cast_ray(maze: &Maze, player: &Player, dir_x: i32, dir_y: i32, block_size: u32) -> (hit:
    Intersect)
    requires
        block_size > 0,
    ensures
        hit@ == cast_spec(
            grid_of(maze),
            ray_from(
                player.pos.x as int,
                player.pos.y as int,
                dir_x as int,
                dir_y as int,
                block_size as int,
            ),
        ),
        hit.distance < 0x1_0000_0000_0000,
{
    let ghost g = grid_of(maze);
    let ghost r = ray_from(
        player.pos.x as int,
        player.pos.y as int,
        dir_x as int,
        dir_y as int,
        block_size as int,
    );
    let ox: i32 = player.pos.x;
    let oy: i32 = player.pos.y;
    if dir_x == 0 && dir_y == 0 {
        return miss(ox, oy);
    }
    let b: u64 = block_size as u64;
    let adx: u32 = magnitude_of(dir_x);
    let ady: u32 = magnitude_of(dir_y);
    let cx: i64 = cell_coord(ox, block_size);
    let cy: i64 = cell_coord(oy, block_size);
    let mut map_x: i64 = cx;
    let mut map_y: i64 = cy;
    let mut side_x: u64 = first_side(ox, dir_x, block_size);
    let mut side_y: u64 = first_side(oy, dir_y, block_size);
    let mut k: u32 = 0;
    while k < MAX_STEPS
        invariant
            g == grid_of(maze),
            r == ray_from(ox as int, oy as int, dir_x as int, dir_y as int, block_size as int),
            ox == player.pos.x,
            oy == player.pos.y,
            b == block_size,
            b > 0,
            dir_x != 0 || dir_y != 0,
            adx == magnitude(dir_x as int),
            ady == magnitude(dir_y as int),
            k <= MAX_STEPS,
            side_x <= (k + 1) * b,
            side_y <= (k + 1) * b,
            dir_x >= 0 ==> side_x > 0,
            dir_y >= 0 ==> side_y > 0,
            cx - k <= map_x <= cx + k,
            cy - k <= map_y <= cy + k,
            -0x8000_0000 <= cx <= 0x7fff_ffff,
            -0x8000_0000 <= cy <= 0x7fff_ffff,
            cast_spec(g, r) == cast_from(
                g,
                r,
                March { map_x: map_x as int, map_y: map_y as int, side_x: side_x as int, side_y: side_y as int },
                (MAX_STEPS - k) as nat,
            ),
        decreases MAX_STEPS - k,
    {
        let ghost s = March {
            map_x: map_x as int,
            map_y: map_y as int,
            side_x: side_x as int,
            side_y: side_y as int,
        };
        proof {
            assert((k + 1) * b <= 2001 * 0xffff_ffff) by (nonlinear_arith)
                requires
                    0 <= k <= 2000,
                    0 <= b <= 0xffff_ffff,
            ;
            assert(side_x * ady <= 0x1000_0000_0000 * 0xffff_ffff) by (nonlinear_arith)
                requires
                    0 <= side_x <= 0x1000_0000_0000,
                    0 <= ady <= 0xffff_ffff,
            ;
            assert(side_y * adx <= 0x1000_0000_0000 * 0xffff_ffff) by (nonlinear_arith)
                requires
                    0 <= side_y <= 0x1000_0000_0000,
                    0 <= adx <= 0xffff_ffff,
            ;
        }
        let lhs: u128 = (side_x as u128) * (ady as u128);
        let rhs: u128 = (side_y as u128) * (adx as u128);
        let x_first: bool = lhs < rhs;
        assert(x_first == crosses_x(r, s));
        let mut nx: i64 = map_x;
        let mut ny: i64 = map_y;
        if x_first {
            if dir_x < 0 {
                nx = map_x - 1;
            } else {
                nx = map_x + 1;
            }
        } else {
            if dir_y < 0 {
                ny = map_y - 1;
            } else {
                ny = map_y + 1;
            }
        }
        let ghost n = march_step(r, s);
        assert(n.map_x == nx && n.map_y == ny);
        if !in_bounds(maze, nx, ny) {
            return miss(ox, oy);
        }
        let c: char = symbol_at(maze, nx, ny);
        if cell_kind(c).blocks() {
            if x_first {
                proof {
                    assert(adx > 0) by (nonlinear_arith)
                        requires
                            side_x * ady < side_y * adx,
                            side_x >= 0,
                            ady >= 0,
                            adx >= 0,
                    ;
                }
                let (o, len) = drift_and_length(side_x, ady, adx, side_y);
                let hit_x: i64 = if dir_x < 0 {
                    ox as i64 - side_x as i64
                } else {
                    ox as i64 + side_x as i64
                };
                let hit_y: i64 = if dir_y < 0 {
                    oy as i64 - o as i64
                } else {
                    oy as i64 + o as i64
                };
                return Intersect { distance: len, impact: c, hit_x, hit_y, side: 0 };
            } else {
                proof {
                    assert(ady > 0) by (nonlinear_arith)
                        requires
                            side_y * adx <= side_x * ady,
                            side_x >= 0,
                            ady >= 0,
                            adx >= 0,
                            adx > 0 || ady > 0,
                            ady == 0 ==> side_y > 0,
                    ;
                }
                let (o, len) = drift_and_length(side_y, adx, ady, side_x);
                let hit_x: i64 = if dir_x < 0 {
                    ox as i64 - o as i64
                } else {
                    ox as i64 + o as i64
                };
                let hit_y: i64 = if dir_y < 0 {
                    oy as i64 - side_y as i64
                } else {
                    oy as i64 + side_y as i64
                };
                return Intersect { distance: len, impact: c, hit_x, hit_y, side: 1 };
            }
        }
        proof {
            assert((k + 2) * b == (k + 1) * b + b) by (nonlinear_arith);
        }
        if x_first {
            side_x = side_x + b;
            map_x = nx;
        } else {
            side_y = side_y + b;
            map_y = ny;
        }
        k = k + 1;
    }
    miss(ox, oy)
}

/// A coordinate lies at or after the start of its cell and before the
/// start of the next one.
pub proof fn lemma_first_crossing_bounds(coord: int, dir: int, b: int)
    requires
        b > 0,
    ensures
        0 <= first_crossing(coord, dir, b) <= b,
        dir >= 0 ==> first_crossing(coord, dir, b) > 0,
{
    lemma_fundamental_div_mod(coord, b);
    lemma_mod_bound(coord, b);
    assert((coord / b) * b == b * (coord / b)) by (nonlinear_arith);
    assert((coord / b + 1) * b == (coord / b) * b + b) by (nonlinear_arith);
}

/// However far the walk has come, a grid without blocking symbols gives
/// no hit.
proof fn lemma_open_grid_from(g: Grid, r: Ray, s: March, budget: nat)
    requires
        wall_free(g),
    ensures
        cast_from(g, r, s, budget) == no_hit(r),
    decreases budget,
{
    if budget > 0 {
        let n = march_step(r, s);
        if cell_in_bounds(g, n.map_x, n.map_y) {
            assert(passable(g[n.map_y][n.map_x]));
            lemma_open_grid_from(g, r, n, (budget - 1) as nat);
        }
    }
}

/// In a grid where no symbol blocks, every ray ends without a hit.
pub proof fn lemma_open_grid_no_hit(g: Grid, r: Ray)
    requires
        wall_free(g),
    ensures
        cast_spec(g, r) == no_hit(r),
{
    lemma_open_grid_from(g, r, march_start(r), MAX_STEPS as nat);
}

/// Wherever the walk stands, it ends without a hit or on a symbol of the
/// grid that is not passable.
proof fn lemma_outcome_from(g: Grid, r: Ray, s: March, budget: nat)
    ensures
        cast_from(g, r, s, budget) == no_hit(r) || ({
            let h = cast_from(g, r, s, budget);
            &&& !passable(h.impact)
            &&& h.side == 0 || h.side == 1
            &&& h.distance >= 0
        }),
    decreases budget,
{
    if budget > 0 {
        let n = march_step(r, s);
        if cell_in_bounds(g, n.map_x, n.map_y) && passable(g[n.map_y][n.map_x]) {
            lemma_outcome_from(g, r, n, (budget - 1) as nat);
        }
    }
}

/// A ray either strikes nothing, or strikes a symbol that is not
/// passable: the empty symbol of the answer tells the two apart.
pub proof fn lemma_hit_is_a_wall(g: Grid, r: Ray)
    ensures
        cast_spec(g, r) == no_hit(r) || ({
            let h = cast_spec(g, r);
            &&& !passable(h.impact)
            &&& h.impact != ' '
            &&& h.side == 0 || h.side == 1
            &&& h.distance >= 0
        }),
{
    lemma_outcome_from(g, r, march_start(r), MAX_STEPS as nat);
}

/// The impact of a ray along the x axis on the `n`-th cell from its own:
/// the near side of that cell, at the height of the origin.
pub open spec fn straight_hit_x(g: Grid, r: Ray, n: nat) -> Hit {
    let t = first_crossing(r.ox, r.dx, r.b) + (n - 1) * r.b;
    Hit {
        distance: t,
        impact: g[cell_index(r.oy, r.b)][shift(cell_index(r.ox, r.b), r.dx, n as int)],
        hit_x: shift(r.ox, r.dx, t),
        hit_y: r.oy,
        side: 0,
    }
}

/// The impact of a ray along the y axis on the `n`-th cell from its own.
pub open spec fn straight_hit_y(g: Grid, r: Ray, n: nat) -> Hit {
    let t = first_crossing(r.oy, r.dy, r.b) + (n - 1) * r.b;
    Hit {
        distance: t,
        impact: g[shift(cell_index(r.oy, r.b), r.dy, n as int)][cell_index(r.ox, r.b)],
        hit_x: r.ox,
        hit_y: shift(r.oy, r.dy, t),
        side: 1,
    }
}

/// The cells strictly between the origin's cell and the `n`-th cell along
/// x are walkable, and the `n`-th exists and blocks.
pub open spec fn first_wall_along_x(g: Grid, r: Ray, n: nat) -> bool {
    let cx = cell_index(r.ox, r.b);
    let cy = cell_index(r.oy, r.b);
    &&& forall|m: int| 1 <= m < n ==> cell_walkable(g, #[trigger] shift(cx, r.dx, m), cy)
    &&& cell_in_bounds(g, shift(cx, r.dx, n as int), cy)
    &&& !passable(g[cy][shift(cx, r.dx, n as int)])
}

/// The cells strictly between the origin's cell and the `n`-th cell along
/// y are walkable, and the `n`-th exists and blocks.
pub open spec fn first_wall_along_y(g: Grid, r: Ray, n: nat) -> bool {
    let cx = cell_index(r.ox, r.b);
    let cy = cell_index(r.oy, r.b);
    &&& forall|m: int| 1 <= m < n ==> cell_walkable(g, cx, #[trigger] shift(cy, r.dy, m))
    &&& cell_in_bounds(g, cx, shift(cy, r.dy, n as int))
    &&& !passable(g[shift(cy, r.dy, n as int)][cx])
}

/// The walk of a ray along x from the `m`-th cell on strikes the `n`-th.
proof fn lemma_straight_x_from(g: Grid, r: Ray, m: nat, n: nat, budget: nat)
    requires
        r.b > 0,
        r.dx != 0,
        r.dy == 0,
        m < n,
        budget >= n - m,
        first_wall_along_x(g, r, n),
    ensures
        cast_from(
            g,
            r,
            March {
                map_x: shift(cell_index(r.ox, r.b), r.dx, m as int),
                map_y: cell_index(r.oy, r.b),
                side_x: first_crossing(r.ox, r.dx, r.b) + m * r.b,
                side_y: first_crossing(r.oy, r.dy, r.b),
            },
            budget,
        ) == straight_hit_x(g, r, n),
    decreases n - m,
{
    let cx = cell_index(r.ox, r.b);
    let cy = cell_index(r.oy, r.b);
    let fx = first_crossing(r.ox, r.dx, r.b);
    let fy = first_crossing(r.oy, r.dy, r.b);
    let s = March { map_x: shift(cx, r.dx, m as int), map_y: cy, side_x: fx + m * r.b, side_y: fy };
    lemma_first_crossing_bounds(r.ox, r.dx, r.b);
    lemma_first_crossing_bounds(r.oy, r.dy, r.b);
    assert(s.side_x * magnitude(r.dy) == 0) by (nonlinear_arith)
        requires
            magnitude(r.dy) == 0,
    ;
    assert(0 < s.side_y * magnitude(r.dx)) by (nonlinear_arith)
        requires
            s.side_y > 0,
            magnitude(r.dx) > 0,
    ;
    assert(crosses_x(r, s));
    let nx = march_step(r, s);
    assert(nx.map_x == shift(cx, r.dx, (m + 1) as int));
    assert((m + 1) * r.b == m * r.b + r.b) by (nonlinear_arith);
    if m + 1 == n {
        let t = s.side_x;
        assert(t == fx + (n - 1) * r.b);
        assert(0 <= m * r.b) by (nonlinear_arith)
            requires
                m >= 0,
                r.b > 0,
        ;
        assert(t * magnitude(r.dy) == 0);
        assert(drift(t, r.dy, r.dx) == 0) by {
            assert(0int / magnitude(r.dx) == 0) by (nonlinear_arith)
                requires
                    magnitude(r.dx) > 0,
            ;
        }
        assert(t * t + 0 * 0 == t * t) by (nonlinear_arith);
        assert(t * t < (t + 1) * (t + 1)) by (nonlinear_arith)
            requires
                t >= 0,
        ;
        assert(0 <= t * t) by (nonlinear_arith);
        lemma_int_sqrt_unique((t * t) as nat, t as nat);
        assert(cast_from(g, r, s, budget) == hit_at(g, r, s));
    } else {
        assert(cell_walkable(g, shift(cx, r.dx, (m + 1) as int), cy));
        lemma_straight_x_from(g, r, m + 1, n, (budget - 1) as nat);
    }
}

/// The walk of a ray along y from the `m`-th cell on strikes the `n`-th.
proof fn lemma_straight_y_from(g: Grid, r: Ray, m: nat, n: nat, budget: nat)
    requires
        r.b > 0,
        r.dx == 0,
        r.dy != 0,
        m < n,
        budget >= n - m,
        first_wall_along_y(g, r, n),
    ensures
        cast_from(
            g,
            r,
            March {
                map_x: cell_index(r.ox, r.b),
                map_y: shift(cell_index(r.oy, r.b), r.dy, m as int),
                side_x: first_crossing(r.ox, r.dx, r.b),
                side_y: first_crossing(r.oy, r.dy, r.b) + m * r.b,
            },
            budget,
        ) == straight_hit_y(g, r, n),
    decreases n - m,
{
    let cx = cell_index(r.ox, r.b);
    let cy = cell_index(r.oy, r.b);
    let fx = first_crossing(r.ox, r.dx, r.b);
    let fy = first_crossing(r.oy, r.dy, r.b);
    let s = March { map_x: cx, map_y: shift(cy, r.dy, m as int), side_x: fx, side_y: fy + m * r.b };
    lemma_first_crossing_bounds(r.ox, r.dx, r.b);
    lemma_first_crossing_bounds(r.oy, r.dy, r.b);
    assert(s.side_y * magnitude(r.dx) == 0) by (nonlinear_arith)
        requires
            magnitude(r.dx) == 0,
    ;
    assert(0 <= s.side_x * magnitude(r.dy)) by (nonlinear_arith)
        requires
            s.side_x >= 0,
            magnitude(r.dy) > 0,
    ;
    assert(!crosses_x(r, s));
    let ny = march_step(r, s);
    assert(ny.map_y == shift(cy, r.dy, (m + 1) as int));
    assert((m + 1) * r.b == m * r.b + r.b) by (nonlinear_arith);
    if m + 1 == n {
        let t = s.side_y;
        assert(t == fy + (n - 1) * r.b);
        assert(0 <= m * r.b) by (nonlinear_arith)
            requires
                m >= 0,
                r.b > 0,
        ;
        assert(t * magnitude(r.dx) == 0);
        assert(drift(t, r.dx, r.dy) == 0) by {
            assert(0int / magnitude(r.dy) == 0) by (nonlinear_arith)
                requires
                    magnitude(r.dy) > 0,
            ;
        }
        assert(t * t + 0 * 0 == t * t) by (nonlinear_arith);
        assert(t * t < (t + 1) * (t + 1)) by (nonlinear_arith)
            requires
                t >= 0,
        ;
        assert(0 <= t * t) by (nonlinear_arith);
        lemma_int_sqrt_unique((t * t) as nat, t as nat);
        assert(cast_from(g, r, s, budget) == hit_at(g, r, s));
    } else {
        assert(cell_walkable(g, cx, shift(cy, r.dy, (m + 1) as int)));
        lemma_straight_y_from(g, r, m + 1, n, (budget - 1) as nat);
    }
}

/// A ray along the x axis strikes the first blocking cell of its row,
/// provided the cells before it are walkable and it is within reach. It
/// enters across the x axis (`side` 0), and its length is the distance
/// from the origin to the near side of that cell, exactly.
pub proof fn lemma_straight_ray_x(g: Grid, r: Ray, n: nat)
    requires
        r.b > 0,
        r.dx != 0,
        r.dy == 0,
        1 <= n <= MAX_STEPS,
        first_wall_along_x(g, r, n),
    ensures
        cast_spec(g, r) == straight_hit_x(g, r, n),
{
    assert(0 * r.b == 0) by (nonlinear_arith);
    lemma_straight_x_from(g, r, 0, n, MAX_STEPS as nat);
}

/// A ray along the y axis strikes the first blocking cell of its column,
/// provided the cells before it are walkable and it is within reach. It
/// enters across the y axis (`side` 1), and its length is the distance
/// from the origin to the near side of that cell, exactly.
pub proof fn lemma_straight_ray_y(g: Grid, r: Ray, n: nat)
    requires
        r.b > 0,
        r.dx == 0,
        r.dy != 0,
        1 <= n <= MAX_STEPS,
        first_wall_along_y(g, r, n),
    ensures
        cast_spec(g, r) == straight_hit_y(g, r, n),
{
    assert(0 * r.b == 0) by (nonlinear_arith);
    lemma_straight_y_from(g, r, 0, n, MAX_STEPS as nat);
}

/// Whether the walk is where its numbers say: the origin moved by
/// `side_x` along x lies on the boundary that the ray meets next across
/// the x axis, and likewise along y.
pub open spec fn on_track(r: Ray, s: March) -> bool {
    &&& s.side_x >= 0
    &&& s.side_y >= 0
    &&& shift(r.ox, r.dx, s.side_x) == (if r.dx < 0 {
        s.map_x * r.b
    } else {
        (s.map_x + 1) * r.b
    })
    &&& shift(r.oy, r.dy, s.side_y) == (if r.dy < 0 {
        s.map_y * r.b
    } else {
        (s.map_y + 1) * r.b
    })
}

/// A walk that is on track stays on track.
proof fn lemma_step_keeps_track(r: Ray, s: March)
    requires
        r.b > 0,
        on_track(r, s),
    ensures
        on_track(r, march_step(r, s)),
{
    assert((s.map_x - 1) * r.b == s.map_x * r.b - r.b) by (nonlinear_arith);
    assert((s.map_x + 2) * r.b == (s.map_x + 1) * r.b + r.b) by (nonlinear_arith);
    assert((s.map_y - 1) * r.b == s.map_y * r.b - r.b) by (nonlinear_arith);
    assert((s.map_y + 2) * r.b == (s.map_y + 1) * r.b + r.b) by (nonlinear_arith);
}

/// What holds of an impact: it lies on a cell boundary across the axis
/// that the ray crossed last, and the distance is that between the origin
/// and the point of impact, rounded down.
pub open spec fn well_placed(r: Ray, h: Hit) -> bool {
    &&& h.side == 0 ==> h.hit_x % r.b == 0
    &&& h.side == 1 ==> h.hit_y % r.b == 0
    &&& h.distance == int_sqrt(
        ((h.hit_x - r.ox) * (h.hit_x - r.ox) + (h.hit_y - r.oy) * (h.hit_y - r.oy)) as nat,
    )
}

/// From a walk that is on track every impact is well placed.
proof fn lemma_placed_from(g: Grid, r: Ray, s: March, budget: nat)
    requires
        r.b > 0,
        on_track(r, s),
    ensures
        cast_from(g, r, s, budget) == no_hit(r) || well_placed(r, cast_from(g, r, s, budget)),
    decreases budget,
{
    if budget > 0 {
        let n = march_step(r, s);
        if cell_in_bounds(g, n.map_x, n.map_y) {
            if passable(g[n.map_y][n.map_x]) {
                lemma_step_keeps_track(r, s);
                lemma_placed_from(g, r, n, (budget - 1) as nat);
            } else {
                let h = hit_at(g, r, s);
                let ex = h.hit_x - r.ox;
                let ey = h.hit_y - r.oy;
                if crosses_x(r, s) {
                    let t = s.side_x;
                    let o = drift(t, r.dy, r.dx);
                    assert(ex * ex == t * t) by (nonlinear_arith)
                        requires
                            ex == t || ex == -t,
                    ;
                    assert(ey * ey == o * o) by (nonlinear_arith)
                        requires
                            ey == o || ey == -o,
                    ;
                    vstd::arithmetic::div_mod::lemma_mod_multiples_basic(s.map_x, r.b);
                    vstd::arithmetic::div_mod::lemma_mod_multiples_basic(s.map_x + 1, r.b);
                } else {
                    let t = s.side_y;
                    let o = drift(t, r.dx, r.dy);
                    assert(ey * ey == t * t) by (nonlinear_arith)
                        requires
                            ey == t || ey == -t,
                    ;
                    assert(ex * ex == o * o) by (nonlinear_arith)
                        requires
                            ex == o || ex == -o,
                    ;
                    vstd::arithmetic::div_mod::lemma_mod_multiples_basic(s.map_y, r.b);
                    vstd::arithmetic::div_mod::lemma_mod_multiples_basic(s.map_y + 1, r.b);
                }
            }
        }
    }
}

/// Every impact lies on the boundary of a cell, across the axis that the
/// ray crossed to strike, and its distance is the distance between the
/// origin and the point of impact, rounded down.
pub proof fn lemma_impact_on_boundary(g: Grid, r: Ray)
    requires
        r.b > 0,
    ensures
        cast_spec(g, r) == no_hit(r) || well_placed(r, cast_spec(g, r)),
{
    lemma_first_crossing_bounds(r.ox, r.dx, r.b);
    lemma_first_crossing_bounds(r.oy, r.dy, r.b);
    lemma_placed_from(g, r, march_start(r), MAX_STEPS as nat);
}

} // verus!
