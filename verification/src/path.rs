//! Shortest routes through the maze, one cell at a time.
//!
//! A route runs through cells that can be walked on, each next to the one
//! before it along x or y. The search labels every cell with its distance
//! from the goal, nearest first, working through a queue of the cells it
//! has labelled, and then reads off which neighbour of the start is
//! nearest to the goal.

use vstd::prelude::*;
use std::collections::VecDeque;
use crate::maze::{
    cell_in_bounds, cell_index, cell_indices_from_pos, cell_kind, cell_walkable, grid_of,
    in_bounds, is_walkable_cell, lemma_grid_cell, Grid, Maze,
};

verus! {

/// Whether the goal `(gx, gy)` can be reached from cell `(x, y)` in at
/// most `n` moves, over cells that can be walked on, `(x, y)` included.
pub open spec fn reach_within(g: Grid, x: int, y: int, gx: int, gy: int, n: nat) -> bool
    decreases n,
{
    cell_walkable(g, x, y) && ((x == gx && y == gy) || (n > 0 && (reach_within(
        g,
        x + 1,
        y,
        gx,
        gy,
        (n - 1) as nat,
    ) || reach_within(g, x - 1, y, gx, gy, (n - 1) as nat) || reach_within(
        g,
        x,
        y + 1,
        gx,
        gy,
        (n - 1) as nat,
    ) || reach_within(g, x, y - 1, gx, gy, (n - 1) as nat))))
}

/// The neighbours of a cell, in the order in which they are tried: the
/// next along x, the one before along x, the next along y, the one
/// before along y.
pub open spec fn neighbour(x: int, y: int, d: int) -> (int, int) {
    if d == 0 {
        (x + 1, y)
    } else if d == 1 {
        (x - 1, y)
    } else if d == 2 {
        (x, y + 1)
    } else {
        (x, y - 1)
    }
}

/// Whether the goal can be reached in at most `n` moves from neighbour
/// `d` of the start `(sx, sy)`.
pub open spec fn step_reaches(g: Grid, sx: int, sy: int, gx: int, gy: int, d: int, n: nat) -> bool {
    reach_within(g, neighbour(sx, sy, d).0, neighbour(sx, sy, d).1, gx, gy, n)
}

/// Whether the goal can be reached in at most `n` moves from some
/// neighbour of the start.
pub open spec fn some_step_reaches(g: Grid, sx: int, sy: int, gx: int, gy: int, n: nat) -> bool {
    step_reaches(g, sx, sy, gx, gy, 0, n) || step_reaches(g, sx, sy, gx, gy, 1, n) || step_reaches(
        g,
        sx,
        sy,
        gx,
        gy,
        2,
        n,
    ) || step_reaches(g, sx, sy, gx, gy, 3, n)
}

/// Whether there is a route from the start to the goal at all.
pub open spec fn route_exists(g: Grid, sx: int, sy: int, gx: int, gy: int) -> bool {
    exists|n: nat| some_step_reaches(g, sx, sy, gx, gy, n)
}

/// Whether `n` is the length of the shortest route after its first move.
pub open spec fn is_route_length(g: Grid, sx: int, sy: int, gx: int, gy: int, n: nat) -> bool {
    some_step_reaches(g, sx, sy, gx, gy, n) && forall|m: nat|
        m < n ==> !some_step_reaches(g, sx, sy, gx, gy, m)
}

/// The length of the shortest route from the start to the goal, not
/// counting its first move.
pub open spec fn route_length(g: Grid, sx: int, sy: int, gx: int, gy: int) -> nat {
    choose|n: nat| is_route_length(g, sx, sy, gx, gy, n)
}

/// The first neighbour of the start, in the order of `neighbour`, from
/// which the goal can be reached in at most `n` moves.
pub open spec fn first_step(g: Grid, sx: int, sy: int, gx: int, gy: int, n: nat) -> int {
    if step_reaches(g, sx, sy, gx, gy, 0, n) {
        0
    } else if step_reaches(g, sx, sy, gx, gy, 1, n) {
        1
    } else if step_reaches(g, sx, sy, gx, gy, 2, n) {
        2
    } else {
        3
    }
}

/// The cell to move to from the start on the way to the goal: the first
/// neighbour of the start that lies on a shortest route. There is none
/// where the start is the goal, where the start is no cell of the grid,
/// and where no route leads to the goal.
pub open spec fn next_cell_spec(g: Grid, sx: int, sy: int, gx: int, gy: int) -> Option<(int, int)> {
    if (sx == gx && sy == gy) || !cell_in_bounds(g, sx, sy) || !route_exists(g, sx, sy, gx, gy) {
        None
    } else {
        Some(neighbour(sx, sy, first_step(g, sx, sy, gx, gy, route_length(g, sx, sy, gx, gy))))
    }
}

/// More moves reach at least as far.
pub proof fn lemma_reach_monotone(g: Grid, x: int, y: int, gx: int, gy: int, n: nat, m: nat)
    requires
        reach_within(g, x, y, gx, gy, n),
        n <= m,
    ensures
        reach_within(g, x, y, gx, gy, m),
    decreases n,
{
    if !(x == gx && y == gy) {
        let n1 = (n - 1) as nat;
        let m1 = (m - 1) as nat;
        if reach_within(g, x + 1, y, gx, gy, n1) {
            lemma_reach_monotone(g, x + 1, y, gx, gy, n1, m1);
        } else if reach_within(g, x - 1, y, gx, gy, n1) {
            lemma_reach_monotone(g, x - 1, y, gx, gy, n1, m1);
        } else if reach_within(g, x, y + 1, gx, gy, n1) {
            lemma_reach_monotone(g, x, y + 1, gx, gy, n1, m1);
        } else {
            lemma_reach_monotone(g, x, y - 1, gx, gy, n1, m1);
        }
    }
}

/// Only a goal that can be walked on can be reached.
pub proof fn lemma_reach_needs_open_goal(g: Grid, x: int, y: int, gx: int, gy: int, n: nat)
    requires
        reach_within(g, x, y, gx, gy, n),
    ensures
        cell_walkable(g, gx, gy),
    decreases n,
{
    if !(x == gx && y == gy) {
        let n1 = (n - 1) as nat;
        if reach_within(g, x + 1, y, gx, gy, n1) {
            lemma_reach_needs_open_goal(g, x + 1, y, gx, gy, n1);
        } else if reach_within(g, x - 1, y, gx, gy, n1) {
            lemma_reach_needs_open_goal(g, x - 1, y, gx, gy, n1);
        } else if reach_within(g, x, y + 1, gx, gy, n1) {
            lemma_reach_needs_open_goal(g, x, y + 1, gx, gy, n1);
        } else {
            lemma_reach_needs_open_goal(g, x, y - 1, gx, gy, n1);
        }
    }
}

/// More moves after the first step reach at least as far.
pub proof fn lemma_some_step_monotone(g: Grid, sx: int, sy: int, gx: int, gy: int, n: nat, m: nat)
    requires
        some_step_reaches(g, sx, sy, gx, gy, n),
        n <= m,
    ensures
        some_step_reaches(g, sx, sy, gx, gy, m),
{
    if step_reaches(g, sx, sy, gx, gy, 0, n) {
        lemma_reach_monotone(g, sx + 1, sy, gx, gy, n, m);
    } else if step_reaches(g, sx, sy, gx, gy, 1, n) {
        lemma_reach_monotone(g, sx - 1, sy, gx, gy, n, m);
    } else if step_reaches(g, sx, sy, gx, gy, 2, n) {
        lemma_reach_monotone(g, sx, sy + 1, gx, gy, n, m);
    } else {
        lemma_reach_monotone(g, sx, sy - 1, gx, gy, n, m);
    }
}

/// The shortest route has one length.
pub proof fn lemma_route_length_unique(g: Grid, sx: int, sy: int, gx: int, gy: int, n: nat)
    requires
        is_route_length(g, sx, sy, gx, gy, n),
    ensures
        route_length(g, sx, sy, gx, gy) == n,
        route_exists(g, sx, sy, gx, gy),
{
    let r = route_length(g, sx, sy, gx, gy);
    assert(is_route_length(g, sx, sy, gx, gy, r));
    if r < n {
        assert(!some_step_reaches(g, sx, sy, gx, gy, r));
    }
    if n < r {
        assert(!some_step_reaches(g, sx, sy, gx, gy, n));
    }
}

/// The cell that the search names lies on a shortest route: it is a
/// walkable neighbour of the start, and from it the goal is exactly
/// `route_length` moves away, one less than from the start.
pub proof fn lemma_next_cell_on_shortest_route(g: Grid, sx: int, sy: int, gx: int, gy: int)
    requires
        next_cell_spec(g, sx, sy, gx, gy) is Some,
    ensures
        ({
            let c = next_cell_spec(g, sx, sy, gx, gy)->0;
            let n = route_length(g, sx, sy, gx, gy);
            &&& cell_walkable(g, c.0, c.1)
            &&& reach_within(g, c.0, c.1, gx, gy, n)
            &&& forall|m: nat| m < n ==> !reach_within(g, c.0, c.1, gx, gy, m)
            &&& magnitude_sum(c.0 - sx, c.1 - sy) == 1
        }),
{
    lemma_route_length_exists(g, sx, sy, gx, gy);
    let n = route_length(g, sx, sy, gx, gy);
    let d = first_step(g, sx, sy, gx, gy, n);
    let c = neighbour(sx, sy, d);
    assert(step_reaches(g, sx, sy, gx, gy, d, n));
    assert forall|m: nat| m < n implies !reach_within(g, c.0, c.1, gx, gy, m) by {
        if reach_within(g, c.0, c.1, gx, gy, m) {
            assert(step_reaches(g, sx, sy, gx, gy, d, m));
            assert(some_step_reaches(g, sx, sy, gx, gy, m));
        }
    }
}

/// How many moves apart two cells are that differ by `(dx, dy)`.
pub open spec fn magnitude_sum(dx: int, dy: int) -> int {
    (if dx < 0 { -dx } else { dx }) + (if dy < 0 { -dy } else { dy })
}

/// Where a route exists, a shortest one has a length.
pub proof fn lemma_route_length_exists(g: Grid, sx: int, sy: int, gx: int, gy: int)
    requires
        route_exists(g, sx, sy, gx, gy),
    ensures
        is_route_length(g, sx, sy, gx, gy, route_length(g, sx, sy, gx, gy)),
{
    let n = choose|n: nat| some_step_reaches(g, sx, sy, gx, gy, n);
    lemma_least_length(g, sx, sy, gx, gy, n);
}

/// Below any length that reaches the goal there is a least one.
proof fn lemma_least_length(g: Grid, sx: int, sy: int, gx: int, gy: int, n: nat)
    requires
        some_step_reaches(g, sx, sy, gx, gy, n),
    ensures
        exists|k: nat| is_route_length(g, sx, sy, gx, gy, k),
    decreases n,
{
    if n > 0 && some_step_reaches(g, sx, sy, gx, gy, (n - 1) as nat) {
        lemma_least_length(g, sx, sy, gx, gy, (n - 1) as nat);
    } else {
        assert forall|m: nat| m < n implies !some_step_reaches(g, sx, sy, gx, gy, m) by {
            if some_step_reaches(g, sx, sy, gx, gy, m) {
                lemma_some_step_monotone(g, sx, sy, gx, gy, m, (n - 1) as nat);
            }
        }
        assert(is_route_length(g, sx, sy, gx, gy, n));
    }
}

/// The cells of a row that carry no label yet.
spec fn blank_row(row: Seq<Option<u128>>) -> nat
    decreases row.len(),
{
    if row.len() == 0 {
        0
    } else {
        blank_row(row.drop_last()) + (if row.last() is None {
            1nat
        } else {
            0nat
        })
    }
}

/// The cells of a grid of labels that carry none yet.
spec fn blank(seen: Seq<Vec<Option<u128>>>) -> nat
    decreases seen.len(),
{
    if seen.len() == 0 {
        0
    } else {
        blank(seen.drop_last()) + blank_row(seen.last()@)
    }
}

/// More cells than this no maze holds: the most rows times the most
/// cells in a row.
spec fn most_cells() -> int {
    0xffff_ffff_ffff_ffffint * 0xffff_ffff_ffff_ffffint
}

/// A row has no more cells without a label than it has cells.
proof fn lemma_blank_row_bound(row: Seq<Option<u128>>)
    ensures
        blank_row(row) <= row.len(),
    decreases row.len(),
{
    if row.len() > 0 {
        lemma_blank_row_bound(row.drop_last());
    }
}

/// A grid has no more cells without a label than a maze can hold.
proof fn lemma_blank_bound(seen: Seq<Vec<Option<u128>>>)
    ensures
        blank(seen) <= seen.len() * 0xffff_ffff_ffff_ffff,
    decreases seen.len(),
{
    if seen.len() > 0 {
        lemma_blank_bound(seen.drop_last());
        lemma_blank_row_bound(seen.last()@);
        assert(seen.last().len() == seen.last()@.len());
        assert(seen.len() * 0xffff_ffff_ffff_ffff == (seen.len() - 1) * 0xffff_ffff_ffff_ffff
            + 0xffff_ffff_ffff_ffff) by (nonlinear_arith);
    } else {
        assert(seen.len() * 0xffff_ffff_ffff_ffff == 0) by (nonlinear_arith)
            requires
                seen.len() == 0,
        ;
    }
}

/// Labelling a cell leaves one cell less without a label.
proof fn lemma_blank_row_fill(row: Seq<Option<u128>>, i: int, v: u128)
    requires
        0 <= i < row.len(),
        row[i] is None,
    ensures
        blank_row(row.update(i, Some(v))) + 1 == blank_row(row),
    decreases row.len(),
{
    let filled = row.update(i, Some(v));
    if i == row.len() - 1 {
        assert(filled.drop_last() =~= row.drop_last());
    } else {
        assert(filled.drop_last() =~= row.drop_last().update(i, Some(v)));
        lemma_blank_row_fill(row.drop_last(), i, v);
    }
}

/// Labelling a cell of a grid leaves one cell less without a label.
proof fn lemma_blank_fill(
    before: Seq<Vec<Option<u128>>>,
    after: Seq<Vec<Option<u128>>>,
    i: int,
    j: int,
    v: u128,
)
    requires
        before.len() == after.len(),
        0 <= j < before.len(),
        0 <= i < before[j]@.len(),
        before[j]@[i] is None,
        after[j]@ == before[j]@.update(i, Some(v)),
        forall|k: int| 0 <= k < before.len() && k != j ==> after[k]@ == before[k]@,
    ensures
        blank(after) + 1 == blank(before),
    decreases before.len(),
{
    if j == before.len() - 1 {
        lemma_blank_same(before.drop_last(), after.drop_last());
        lemma_blank_row_fill(before[j]@, i, v);
    } else {
        lemma_blank_fill(before.drop_last(), after.drop_last(), i, j, v);
    }
}

/// Grids with the same labels have as many cells without one.
proof fn lemma_blank_same(before: Seq<Vec<Option<u128>>>, after: Seq<Vec<Option<u128>>>)
    requires
        before.len() == after.len(),
        forall|k: int| 0 <= k < before.len() ==> after[k]@ == before[k]@,
    ensures
        blank(after) == blank(before),
    decreases before.len(),
{
    if before.len() > 0 {
        lemma_blank_same(before.drop_last(), after.drop_last());
    }
}

/// The state of a search: the label of each cell, which is its distance
/// from the goal, and the queue of the labelled cells whose neighbours
/// are still to be looked at, each with its distance.
///
/// The proof keeps more: every labelled cell in the order in which it
/// was labelled, its distance, its place in that order, and how many
/// cells have left the queue. The queue holds the cells from that place
/// on.
struct Search {
    dist: Vec<Vec<Option<u128>>>,
    queue: VecDeque<(usize, usize, u128)>,
    order: Ghost<Seq<(usize, usize)>>,
    depth: Ghost<Seq<u128>>,
    place: Ghost<Map<(int, int), int>>,
    taken: Ghost<int>,
}

/// The entries of the order from `from` on, each with its distance.
spec fn pending(order: Seq<(usize, usize)>, depth: Seq<u128>, from: int) -> Seq<
    (usize, usize, u128),
> {
    Seq::new(
        (order.len() - from) as nat,
        |k: int| (order[from + k].0, order[from + k].1, depth[from + k]),
    )
}

impl Search {
    /// The label of cell `(i, j)`.
    spec fn label(&self, i: int, j: int) -> Option<u128> {
        self.dist@[j]@[i]
    }

    /// The labels have the shape of the grid.
    spec fn shaped(&self, g: Grid) -> bool {
        &&& self.dist@.len() == g.len()
        &&& forall|j: int| 0 <= j < g.len() ==> (#[trigger] self.dist@[j])@.len() == g[j].len()
    }

    /// Entry `k` of the order is a walkable cell, labelled with its
    /// distance `depth[k]`, within which the goal is reached from it.
    spec fn listed(&self, g: Grid, gx: int, gy: int, k: int) -> bool {
        let c = self.order@[k];
        &&& cell_walkable(g, c.0 as int, c.1 as int)
        &&& self.label(c.0 as int, c.1 as int) == Some(self.depth@[k])
        &&& self.place@.dom().contains((c.0 as int, c.1 as int))
        &&& self.place@[(c.0 as int, c.1 as int)] == k
        &&& reach_within(g, c.0 as int, c.1 as int, gx, gy, self.depth@[k] as nat)
        &&& self.depth@[k] <= k
    }

    /// A labelled cell has its place in the order, with its label as its
    /// distance there.
    spec fn traced(&self, i: int, j: int) -> bool {
        match self.label(i, j) {
            Some(d) => {
                let k = self.place@[(i, j)];
                &&& self.place@.dom().contains((i, j))
                &&& 0 <= k < self.order@.len()
                &&& self.order@[k].0 == i
                &&& self.order@[k].1 == j
                &&& self.depth@[k] == d
            },
            None => true,
        }
    }

    /// What holds of a search at every moment: the goal comes first, every
    /// listed cell is labelled and reaches the goal, labels have their
    /// place, distances never fall along the order, and the queue holds
    /// the cells that have not left it yet.
    spec fn ok(&self, g: Grid, gx: int, gy: int) -> bool {
        &&& self.shaped(g)
        &&& self.order@.len() == self.depth@.len()
        &&& self.order@.len() >= 1
        &&& self.order@[0].0 == gx
        &&& self.order@[0].1 == gy
        &&& self.depth@[0] == 0
        &&& 0 <= self.taken@ <= self.order@.len()
        &&& self.queue@ == pending(self.order@, self.depth@, self.taken@)
        &&& self.order@.len() + blank(self.dist@) <= most_cells()
        &&& forall|k: int| 0 <= k < self.order@.len() ==> #[trigger] self.listed(g, gx, gy, k)
        &&& forall|i: int, j: int| cell_in_bounds(g, i, j) ==> #[trigger] self.traced(i, j)
        &&& forall|k1: int, k2: int|
            0 <= k1 <= k2 < self.depth@.len() ==> #[trigger] self.depth@[k1]
                <= #[trigger] self.depth@[k2]
    }

    /// No labelled cell is more than one move farther than entry `cur`.
    spec fn frontier(&self, cur: int) -> bool {
        cur < self.depth@.len() ==> forall|k: int|
            0 <= k < self.depth@.len() ==> #[trigger] self.depth@[k] <= self.depth@[cur] + 1
    }

    /// Cell `(i, j)`, if it can be walked on, is labelled and at most `d`
    /// moves from the goal.
    spec fn near(&self, g: Grid, i: int, j: int, d: int) -> bool {
        cell_walkable(g, i, j) ==> (match self.label(i, j) {
            Some(v) => v <= d,
            None => false,
        })
    }

    /// All neighbours of entry `h` have been looked at.
    spec fn settled(&self, g: Grid, h: int) -> bool {
        let c = self.order@[h];
        let d = self.depth@[h] + 1;
        &&& self.near(g, c.0 + 1, c.1 as int, d)
        &&& self.near(g, c.0 - 1, c.1 as int, d)
        &&& self.near(g, c.0 as int, c.1 + 1, d)
        &&& self.near(g, c.0 as int, c.1 - 1, d)
    }

    /// All entries before `upto` are settled.
    spec fn all_settled(&self, g: Grid, upto: int) -> bool {
        forall|h: int| 0 <= h < upto ==> #[trigger] self.settled(g, h)
    }

    /// `self` continues `earlier`: what was listed and labelled there is
    /// still so here, and no cell has left the queue.
    spec fn extends(&self, earlier: &Search, g: Grid) -> bool {
        &&& self.taken@ == earlier.taken@
        &&& self.order@.len() >= earlier.order@.len()
        &&& forall|k: int|
            0 <= k < earlier.order@.len() ==> #[trigger] self.order@[k] == earlier.order@[k]
        &&& forall|k: int|
            0 <= k < earlier.depth@.len() ==> #[trigger] self.depth@[k] == earlier.depth@[k]
        &&& forall|i: int, j: int|
            cell_in_bounds(g, i, j) && earlier.label(i, j) is Some ==> #[trigger] self.label(i, j)
                == earlier.label(i, j)
    }

    /// Labels cell `(i, j)` with distance `d` and puts it in the queue,
    /// if it can be walked on and has no label yet.
    fn visit(
        &mut self,
        maze: &Maze,
        i: usize,
        j: usize,
        d: u128,
        Ghost(gx): Ghost<int>,
        Ghost(gy): Ghost<int>,
        Ghost(cur): Ghost<int>,
    )
        requires
            old(self).ok(grid_of(maze), gx, gy),
            0 <= cur < old(self).order@.len(),
            old(self).frontier(cur),
            old(self).all_settled(grid_of(maze), cur),
            d == old(self).depth@[cur] + 1,
            cell_walkable(grid_of(maze), i as int, j as int) ==> reach_within(
                grid_of(maze),
                i as int,
                j as int,
                gx,
                gy,
                d as nat,
            ),
        ensures
            final(self).ok(grid_of(maze), gx, gy),
            final(self).frontier(cur),
            final(self).all_settled(grid_of(maze), cur),
            final(self).extends(old(self), grid_of(maze)),
            final(self).near(grid_of(maze), i as int, j as int, d as int),
            blank(final(self).dist@) + final(self).queue@.len() == blank(old(self).dist@) + old(
                self,
            ).queue@.len(),
    {
        let ghost g = grid_of(maze);
        if j >= maze.len() {
            return;
        }
        if i >= maze[j].len() {
            return;
        }
        proof {
            assert(cell_in_bounds(g, i as int, j as int));
            lemma_grid_cell(maze, i as int, j as int);
            assert(self.dist@[j as int]@.len() == g[j as int].len());
        }
        if cell_kind(maze[j][i]).blocks() {
            return;
        }
        assert(cell_walkable(g, i as int, j as int));
        assert(self.traced(i as int, j as int));
        match self.dist[j][i] {
            Some(v) => {
                assert(v <= self.depth@[cur] + 1);
            },
            None => {
                let ghost k = self.order@.len() as int;
                assert(self.listed(g, gx, gy, cur));
                self.dist[j][i] = Some(d);
                self.queue.push_back((i, j, d));
                let order: Ghost<Seq<(usize, usize)>> = Ghost(self.order@.push((i, j)));
                let depth: Ghost<Seq<u128>> = Ghost(self.depth@.push(d));
                let place: Ghost<Map<(int, int), int>> = Ghost(
                    self.place@.insert((i as int, j as int), k),
                );
                self.order = order;
                self.depth = depth;
                self.place = place;
                proof {
                    lemma_blank_fill(old(self).dist@, self.dist@, i as int, j as int, d);
                    assert(self.queue@ =~= pending(self.order@, self.depth@, self.taken@));
                    assert forall|ii: int, jj: int| cell_in_bounds(g, ii, jj) implies (if ii == i
                        && jj == j {
                        self.label(ii, jj) == Some(d)
                    } else {
                        self.label(ii, jj) == old(self).label(ii, jj)
                    }) by {}
                    assert forall|kk: int| 0 <= kk < self.order@.len() implies #[trigger] self.listed(
                        g,
                        gx,
                        gy,
                        kk,
                    ) by {
                        if kk < k {
                            assert(old(self).listed(g, gx, gy, kk));
                            let cc = old(self).order@[kk];
                            assert(cell_in_bounds(g, cc.0 as int, cc.1 as int));
                        }
                    }
                    assert forall|ii: int, jj: int| cell_in_bounds(g, ii, jj) implies #[trigger] self.traced(
                        ii,
                        jj,
                    ) by {
                        assert(old(self).traced(ii, jj));
                    }
                    assert forall|h: int| 0 <= h < cur implies #[trigger] self.settled(g, h) by {
                        assert(old(self).settled(g, h));
                    }
                }
            },
        }
    }

    /// Once every listed cell is settled, every cell from which the goal
    /// can be reached is labelled, with a distance no greater than any
    /// number of moves that reach.
    proof fn lemma_complete(&self, g: Grid, gx: int, gy: int, x: int, y: int, n: nat)
        requires
            self.ok(g, gx, gy),
            self.all_settled(g, self.order@.len() as int),
            reach_within(g, x, y, gx, gy, n),
        ensures
            self.near(g, x, y, n as int),
        decreases n,
    {
        if x == gx && y == gy {
            assert(self.listed(g, gx, gy, 0));
        } else {
            let n1 = (n - 1) as nat;
            let (mx, my) = if reach_within(g, x + 1, y, gx, gy, n1) {
                (x + 1, y)
            } else if reach_within(g, x - 1, y, gx, gy, n1) {
                (x - 1, y)
            } else if reach_within(g, x, y + 1, gx, gy, n1) {
                (x, y + 1)
            } else {
                (x, y - 1)
            };
            assert(reach_within(g, mx, my, gx, gy, n1));
            assert(cell_walkable(g, mx, my));
            self.lemma_complete(g, gx, gy, mx, my, n1);
            assert(self.near(g, mx, my, n1 as int));
            assert(self.traced(mx, my));
            let k = self.place@[(mx, my)];
            assert(self.settled(g, k));
        }
    }

    /// The distance from the goal of cell `(i, j)`, if it is labelled.
    fn distance_at(&self, maze: &Maze, i: i64, j: i64, Ghost(gx): Ghost<int>, Ghost(gy): Ghost<int>) -> (d: Option<u128>)
        requires
            self.ok(grid_of(maze), gx, gy),
            self.all_settled(grid_of(maze), self.order@.len() as int),
        ensures
            match d {
                Some(v) => reach_within(grid_of(maze), i as int, j as int, gx, gy, v as nat)
                    && forall|n: nat|
                    reach_within(grid_of(maze), i as int, j as int, gx, gy, n) ==> v <= n,
                None => forall|n: nat| !reach_within(grid_of(maze), i as int, j as int, gx, gy, n),
            },
    {
        let ghost g = grid_of(maze);
        if !in_bounds(maze, i, j) {
            return None;
        }
        proof {
            lemma_grid_cell(maze, i as int, j as int);
            assert(self.dist@[j as int]@.len() == g[j as int].len());
            assert(self.traced(i as int, j as int));
        }
        match self.dist[j as usize][i as usize] {
            Some(v) => {
                proof {
                    let k = self.place@[(i as int, j as int)];
                    assert(self.listed(g, gx, gy, k));
                    assert forall|n: nat| reach_within(g, i as int, j as int, gx, gy, n) implies v
                        <= n by {
                        self.lemma_complete(g, gx, gy, i as int, j as int, n);
                    }
                }
                Some(v)
            },
            None => {
                proof {
                    assert forall|n: nat| !reach_within(g, i as int, j as int, gx, gy, n) by {
                        if reach_within(g, i as int, j as int, gx, gy, n) {
                            self.lemma_complete(g, gx, gy, i as int, j as int, n);
                        }
                    }
                }
                None
            },
        }
    }
}

/// A row of `n` cells without labels.
fn blank_labels(n: usize) -> (row: Vec<Option<u128>>)
    ensures
        row@.len() == n,
        forall|i: int| 0 <= i < n ==> row@[i] is None,
{
    let mut row: Vec<Option<u128>> = Vec::new();
    let mut i: usize = 0;
    while i < n
        invariant
            i <= n,
            row@.len() == i,
            forall|k: int| 0 <= k < i ==> row@[k] is None,
        decreases n - i,
    {
        row.push(None);
        i = i + 1;
    }
    row
}

/// Labels every cell from which the goal `(gi, gj)` can be reached with
/// its distance from the goal, nearest first: each cell that leaves the
/// queue has its unlabelled neighbours labelled one farther and queued.
fn search_from(maze: &Maze, gi: usize, gj: usize) -> (s: Search)
    requires
        cell_walkable(grid_of(maze), gi as int, gj as int),
    ensures
        s.ok(grid_of(maze), gi as int, gj as int),
        s.all_settled(grid_of(maze), s.order@.len() as int),
{
    let ghost g = grid_of(maze);
    let ghost gx = gi as int;
    let ghost gy = gj as int;
    let mut dist: Vec<Vec<Option<u128>>> = Vec::new();
    let mut j: usize = 0;
    while j < maze.len()
        invariant
            j <= maze.len(),
            dist@.len() == j,
            forall|r: int| 0 <= r < j ==> (#[trigger] dist@[r])@.len() == maze@[r]@.len(),
            forall|r: int, c: int|
                0 <= r < j && 0 <= c < maze@[r]@.len() ==> (#[trigger] dist@[r]@[c]) is None,
        decreases maze.len() - j,
    {
        dist.push(blank_labels(maze[j].len()));
        j = j + 1;
    }
    proof {
        lemma_grid_cell(maze, gx, gy);
        lemma_blank_bound(dist@);
        assert(dist.len() == dist@.len());
        assert(dist@.len() * 0xffff_ffff_ffff_ffff <= most_cells()) by (nonlinear_arith)
            requires
                0 <= dist@.len() <= 0xffff_ffff_ffff_ffff,
                most_cells() == 0xffff_ffff_ffff_ffff * 0xffff_ffff_ffff_ffff,
        ;
    }
    let ghost fresh = dist@;
    let order: Ghost<Seq<(usize, usize)>> = Ghost(Seq::empty().push((gi, gj)));
    let depth: Ghost<Seq<u128>> = Ghost(Seq::empty().push(0u128));
    let place: Ghost<Map<(int, int), int>> = Ghost(Map::empty().insert((gx, gy), 0int));
    let taken: Ghost<int> = Ghost(0int);
    let mut s = Search { dist, queue: VecDeque::new(), order, depth, place, taken };
    s.dist[gj][gi] = Some(0);
    s.queue.push_back((gi, gj, 0));
    proof {
        lemma_blank_fill(fresh, s.dist@, gx, gy, 0u128);
        assert(s.queue@ =~= pending(s.order@, s.depth@, s.taken@));
        assert forall|ii: int, jj: int| cell_in_bounds(g, ii, jj) implies #[trigger] s.traced(
            ii,
            jj,
        ) by {}
        assert(s.listed(g, gx, gy, 0));
    }
    loop
        invariant
            g == grid_of(maze),
            gx == gi,
            gy == gj,
            s.ok(g, gx, gy),
            s.frontier(s.taken@),
            s.all_settled(g, s.taken@),
        ensures
            s.ok(g, gx, gy),
            s.all_settled(g, s.order@.len() as int),
        decreases blank(s.dist@) + s.queue@.len(),
    {
        let ghost cur = s.taken@;
        let ghost before = s;
        let front: Option<(usize, usize, u128)> = s.queue.pop_front();
        let (ci, cj, d0) = match front {
            Some(cell) => cell,
            None => {
                proof {
                    assert(before.queue@.len() == s.order@.len() - cur);
                    assert forall|k: int| 0 <= k < s.order@.len() implies #[trigger] s.listed(
                        g,
                        gx,
                        gy,
                        k,
                    ) by {
                        assert(before.listed(g, gx, gy, k));
                    }
                    assert forall|ii: int, jj: int| cell_in_bounds(g, ii, jj) implies #[trigger] s.traced(
                        ii,
                        jj,
                    ) by {
                        assert(before.traced(ii, jj));
                    }
                    assert forall|h: int| 0 <= h < cur implies #[trigger] s.settled(g, h) by {
                        assert(before.settled(g, h));
                    }
                }
                break;
            },
        };
        let taken: Ghost<int> = Ghost(cur + 1);
        s.taken = taken;
        proof {
            assert(before.queue@.len() == s.order@.len() - cur);
            assert(s.queue@ =~= pending(s.order@, s.depth@, s.taken@));
            assert forall|k: int| 0 <= k < s.order@.len() implies #[trigger] s.listed(
                g,
                gx,
                gy,
                k,
            ) by {
                assert(before.listed(g, gx, gy, k));
            }
            assert forall|ii: int, jj: int| cell_in_bounds(g, ii, jj) implies #[trigger] s.traced(
                ii,
                jj,
            ) by {
                assert(before.traced(ii, jj));
            }
            assert forall|h: int| 0 <= h < cur implies #[trigger] s.settled(g, h) by {
                assert(before.settled(g, h));
            }
            assert(s.listed(g, gx, gy, cur));
            lemma_grid_cell(maze, ci as int, cj as int);
            assert(most_cells() < 0xffff_ffff_ffff_ffff_ffff_ffff_ffff_ffff) by (nonlinear_arith)
                requires
                    most_cells() == 0xffff_ffff_ffff_ffffint * 0xffff_ffff_ffff_ffffint,
            ;
        }
        let d: u128 = d0 + 1;
        s.visit(maze, ci + 1, cj, d, Ghost(gx), Ghost(gy), Ghost(cur));
        let ghost after_first = s;
        if ci > 0 {
            s.visit(maze, (ci - 1) as usize, cj, d, Ghost(gx), Ghost(gy), Ghost(cur));
        }
        let ghost after_second = s;
        s.visit(maze, ci, cj + 1, d, Ghost(gx), Ghost(gy), Ghost(cur));
        let ghost after_third = s;
        if cj > 0 {
            s.visit(maze, ci, (cj - 1) as usize, d, Ghost(gx), Ghost(gy), Ghost(cur));
        }
        proof {
            assert(s.order@[cur] == (ci, cj));
            assert(s.depth@[cur] + 1 == d);
            assert(after_first.near(g, ci + 1, cj as int, d as int));
            assert(after_second.near(g, ci - 1, cj as int, d as int));
            assert(after_third.near(g, ci as int, cj + 1, d as int));
            assert(s.near(g, ci as int, cj - 1, d as int));
            assert(s.near(g, ci + 1, cj as int, d as int));
            assert(s.near(g, ci - 1, cj as int, d as int));
            assert(s.near(g, ci as int, cj + 1, d as int));
            assert(s.settled(g, cur));
            if cur + 1 < s.depth@.len() {
                assert(s.depth@[cur] <= s.depth@[cur + 1]);
            }
        }
    }
    s
}

/// The nearer to the goal of the best neighbour so far and neighbour
/// `d`, the earlier of the two where they are equally near.
fn nearer(best: Option<(u128, u8)>, found: Option<u128>, d: u8) -> (r: Option<(u128, u8)>)
    ensures
        r == (match found {
            Some(v) => match best {
                Some(b) => if v < b.0 {
                    Some((v, d))
                } else {
                    best
                },
                None => Some((v, d)),
            },
            None => best,
        }),
{
    match found {
        Some(v) => match best {
            Some(b) => if v < b.0 {
                Some((v, d))
            } else {
                best
            },
            None => Some((v, d)),
        },
        None => best,
    }
}

/// The cell to move to from cell `(si, sj)` on the way to `(gi, gj)`.
fn next_cell(maze: &Maze, si: i64, sj: i64, gi: i64, gj: i64) -> (r: Option<(i64, i64)>)
    requires
        -0x8000_0000 <= si <= 0x7fff_ffff,
        -0x8000_0000 <= sj <= 0x7fff_ffff,
    ensures
        match r {
            Some(c) => next_cell_spec(grid_of(maze), si as int, sj as int, gi as int, gj as int)
                == Some((c.0 as int, c.1 as int)),
            None => next_cell_spec(grid_of(maze), si as int, sj as int, gi as int, gj as int)
                is None,
        },
{
    let ghost g = grid_of(maze);
    let ghost sx = si as int;
    let ghost sy = sj as int;
    let ghost gx = gi as int;
    let ghost gy = gj as int;
    if si == gi && sj == gj {
        return None;
    }
    if !in_bounds(maze, si, sj) {
        return None;
    }
    if !is_walkable_cell(maze, gi, gj) {
        proof {
            assert forall|n: nat| !some_step_reaches(g, sx, sy, gx, gy, n) by {
                if step_reaches(g, sx, sy, gx, gy, 0, n) {
                    lemma_reach_needs_open_goal(g, sx + 1, sy, gx, gy, n);
                }
                if step_reaches(g, sx, sy, gx, gy, 1, n) {
                    lemma_reach_needs_open_goal(g, sx - 1, sy, gx, gy, n);
                }
                if step_reaches(g, sx, sy, gx, gy, 2, n) {
                    lemma_reach_needs_open_goal(g, sx, sy + 1, gx, gy, n);
                }
                if step_reaches(g, sx, sy, gx, gy, 3, n) {
                    lemma_reach_needs_open_goal(g, sx, sy - 1, gx, gy, n);
                }
            }
        }
        return None;
    }
    proof {
        lemma_grid_cell(maze, gx, gy);
    }
    let s: Search = search_from(maze, gi as usize, gj as usize);
    let d0: Option<u128> = s.distance_at(maze, si + 1, sj, Ghost(gx), Ghost(gy));
    let d1: Option<u128> = s.distance_at(maze, si - 1, sj, Ghost(gx), Ghost(gy));
    let d2: Option<u128> = s.distance_at(maze, si, sj + 1, Ghost(gx), Ghost(gy));
    let d3: Option<u128> = s.distance_at(maze, si, sj - 1, Ghost(gx), Ghost(gy));
    let b0 = nearer(None, d0, 0);
    let b1 = nearer(b0, d1, 1);
    let b2 = nearer(b1, d2, 2);
    let b3 = nearer(b2, d3, 3);
    match b3 {
        None => {
            proof {
                assert forall|n: nat| !some_step_reaches(g, sx, sy, gx, gy, n) by {}
            }
            None
        },
        Some((n, d)) => {
            proof {
                assert(step_reaches(g, sx, sy, gx, gy, d as int, n as nat));
                assert forall|m: nat| m < n implies !some_step_reaches(g, sx, sy, gx, gy, m) by {}
                assert(is_route_length(g, sx, sy, gx, gy, n as nat));
                lemma_route_length_unique(g, sx, sy, gx, gy, n as nat);
                assert(first_step(g, sx, sy, gx, gy, n as nat) == d);
            }
            if d == 0 {
                Some((si + 1, sj))
            } else if d == 1 {
                Some((si - 1, sj))
            } else if d == 2 {
                Some((si, sj + 1))
            } else {
                Some((si, sj - 1))
            }
        },
    }
}

/// The middle of cell `c` along one axis.
pub open spec fn cell_center(c: int, block_size: int) -> int {
    c * block_size + block_size / 2
}

/// Where to head from `(from_x, from_y)` on the way to `(to_x, to_y)`:
/// the middle of the next cell on a shortest route.
pub open spec fn next_step_spec(
    g: Grid,
    from_x: int,
    from_y: int,
    to_x: int,
    to_y: int,
    block_size: int,
) -> Option<(int, int)> {
    match next_cell_spec(
        g,
        cell_index(from_x, block_size),
        cell_index(from_y, block_size),
        cell_index(to_x, block_size),
        cell_index(to_y, block_size),
    ) {
        Some(c) => Some((cell_center(c.0, block_size), cell_center(c.1, block_size))),
        None => None,
    }
}

/// The middle of a cell next to the cell of `coord`.
fn center_of(c: i64, block_size: u32, Ghost(coord): Ghost<int>) -> (m: i64)
    requires
        block_size > 0,
        -0x8000_0000 <= coord <= 0x7fff_ffff,
        cell_index(coord, block_size as int) - 1 <= c <= cell_index(coord, block_size as int) + 1,
    ensures
        m == cell_center(c as int, block_size as int),
        -0x4_0000_0000 <= m <= 0x4_0000_0000,
{
    proof {
        let b = block_size as int;
        let q = coord / b;
        vstd::arithmetic::div_mod::lemma_fundamental_div_mod(coord, b);
        vstd::arithmetic::div_mod::lemma_mod_bound(coord, b);
        assert(b * q == q * b) by (nonlinear_arith);
        assert((q + 1) * b == q * b + b) by (nonlinear_arith);
        assert((q - 1) * b == q * b - b) by (nonlinear_arith);
        assert(c * b == q * b || c * b == (q + 1) * b || c * b == (q - 1) * b);
    }
    c * (block_size as i64) + (block_size / 2) as i64
}

/// Where an agent at `(from_x, from_y)` should head to reach
/// `(to_x, to_y)` around the walls: the middle of the next cell on a
/// shortest route from its cell to the target's, moving from cell to
/// cell along x or y. Among several shortest routes the one is taken
/// whose first move comes first in the order of `neighbour`.
///
/// There is nowhere to head where both points lie in one cell, where the
/// agent's cell is no cell of the maze, and where no route exists.
pub fn next_step_bfs(
    maze: &Maze,
    from_x: i32,
    from_y: i32,
    to_x: i32,
    to_y: i32,
    block_size: u32,
) -> (r: Option<(i64, i64)>)
    requires
        block_size > 0,
    ensures
        match r {
            Some(p) => next_step_spec(
                grid_of(maze),
                from_x as int,
                from_y as int,
                to_x as int,
                to_y as int,
                block_size as int,
            ) == Some((p.0 as int, p.1 as int)),
            None => next_step_spec(
                grid_of(maze),
                from_x as int,
                from_y as int,
                to_x as int,
                to_y as int,
                block_size as int,
            ) is None,
        },
        r matches Some(p) ==> -0x4_0000_0000 <= p.0 <= 0x4_0000_0000 && -0x4_0000_0000 <= p.1
            <= 0x4_0000_0000,
{
    let (si, sj) = cell_indices_from_pos(from_x, from_y, block_size);
    let (gi, gj) = cell_indices_from_pos(to_x, to_y, block_size);
    match next_cell(maze, si, sj, gi, gj) {
        Some(c) => {
            let x: i64 = center_of(c.0, block_size, Ghost(from_x as int));
            let y: i64 = center_of(c.1, block_size, Ghost(from_y as int));
            Some((x, y))
        },
        None => None,
    }
}

} // verus!
