//! Directions by table. An angle is a whole number of steps; the table
//! holds, for each step of one full turn, the two components of the
//! direction at that angle, scaled by `scale`. Whoever fills the table
//! decides how fine the steps are.

use vstd::prelude::*;
use crate::geometry::div_floor;

verus! {

/// The most steps a full turn can have.
pub const MAX_TURN: usize = 0x4000_0000;

/// The direction of every angle of one full turn.
pub struct TrigTable {
    /// What the length of a direction is scaled to.
    pub scale: u32,
    /// The x component at each step.
    pub cos: Vec<i32>,
    /// The y component at each step.
    pub sin: Vec<i32>,
}

/// How well the direction `(c, s)` points along `(dx, dy)`: their dot
/// product.
pub open spec fn alignment(c: int, s: int, dx: int, dy: int) -> int {
    c * dx + s * dy
}

impl TrigTable {
    /// The table has a scale, at least one step and at most `MAX_TURN`,
    /// and for each step both components, neither longer than the scale.
    pub open spec fn wf(&self) -> bool {
        &&& self.scale > 0
        &&& 0 < self.cos@.len() <= MAX_TURN
        &&& self.cos@.len() == self.sin@.len()
        &&& forall|k: int|
            0 <= k < self.cos@.len() ==> -self.scale <= #[trigger] self.cos@[k] <= self.scale
        &&& forall|k: int|
            0 <= k < self.sin@.len() ==> -self.scale <= #[trigger] self.sin@[k] <= self.scale
    }

    /// The number of steps in a full turn.
    pub open spec fn turn(&self) -> int {
        self.cos@.len() as int
    }

    /// The step of the table that an angle falls on: angles repeat after
    /// a full turn.
    pub open spec fn step_of(&self, angle: int) -> int {
        angle % self.turn()
    }

    /// The x component of the direction at `angle`.
    pub open spec fn cos_at(&self, angle: int) -> int {
        self.cos@[self.step_of(angle)] as int
    }

    /// The y component of the direction at `angle`.
    pub open spec fn sin_at(&self, angle: int) -> int {
        self.sin@[self.step_of(angle)] as int
    }

    /// How well step `k` points along `(dx, dy)`.
    pub open spec fn alignment_at(&self, k: int, dx: int, dy: int) -> int {
        alignment(self.cos@[k] as int, self.sin@[k] as int, dx, dy)
    }

    /// The best-aligned step among the first `n`, the earliest of them
    /// where several tie.
    pub open spec fn best_among(&self, n: nat, dx: int, dy: int) -> int
        decreases n,
    {
        if n <= 1 {
            0
        } else {
            let p = self.best_among((n - 1) as nat, dx, dy);
            if self.alignment_at(n - 1, dx, dy) > self.alignment_at(p, dx, dy) {
                n - 1
            } else {
                p
            }
        }
    }

    /// The angle at which the table points best along `(dx, dy)`.
    pub open spec fn bearing_of(&self, dx: int, dy: int) -> int {
        self.best_among(self.turn() as nat, dx, dy)
    }

    /// Whether the table can be used.
    pub fn is_valid(&self) -> (ok: bool)
        ensures
            ok == self.wf(),
    {
        let n: usize = self.cos.len();
        if self.scale == 0 || n == 0 || n > MAX_TURN || self.sin.len() != n {
            return false;
        }
        let limit: i64 = self.scale as i64;
        let mut k: usize = 0;
        while k < n
            invariant
                k <= n,
                n == self.cos@.len(),
                n == self.sin@.len(),
                limit == self.scale,
                forall|m: int| 0 <= m < k ==> -self.scale <= #[trigger] self.cos@[m] <= self.scale,
                forall|m: int| 0 <= m < k ==> -self.scale <= #[trigger] self.sin@[m] <= self.scale,
            decreases n - k,
        {
            let c: i64 = self.cos[k] as i64;
            let s: i64 = self.sin[k] as i64;
            if c < -limit || c > limit || s < -limit || s > limit {
                return false;
            }
            k = k + 1;
        }
        true
    }

    /// The number of steps in a full turn.
    pub fn steps(&self) -> (n: usize)
        ensures
            n == self.turn(),
    {
        self.cos.len()
    }

    /// The step of the table that an angle falls on.
    pub fn step(&self, angle: i64) -> (k: usize)
        requires
            self.wf(),
        ensures
            k == self.step_of(angle as int),
            k < self.turn(),
    {
        let n: u64 = self.cos.len() as u64;
        let (_q, r) = div_floor(angle, n);
        r as usize
    }

    /// The x component of the direction at `angle`.
    pub fn cos_of(&self, angle: i64) -> (c: i32)
        requires
            self.wf(),
        ensures
            c == self.cos_at(angle as int),
    {
        let k: usize = self.step(angle);
        self.cos[k]
    }

    /// The y component of the direction at `angle`.
    pub fn sin_of(&self, angle: i64) -> (s: i32)
        requires
            self.wf(),
        ensures
            s == self.sin_at(angle as int),
    {
        let k: usize = self.step(angle);
        self.sin[k]
    }

    /// The angle at which the table points best along `(dx, dy)`: the
    /// first step whose alignment no other step exceeds.
    pub fn bearing(&self, dx: i64, dy: i64) -> (k: usize)
        requires
            self.wf(),
        ensures
            k == self.bearing_of(dx as int, dy as int),
            k < self.turn(),
    {
        let n: usize = self.cos.len();
        let mut best: usize = 0;
        let mut best_dot: i128 = dot(self.cos[0], self.sin[0], dx, dy);
        let mut j: usize = 1;
        while j < n
            invariant
                self.wf(),
                n == self.turn(),
                1 <= j <= n,
                best < j,
                best == self.best_among(j as nat, dx as int, dy as int),
                best_dot == self.alignment_at(best as int, dx as int, dy as int),
            decreases n - j,
        {
            let d: i128 = dot(self.cos[j], self.sin[j], dx, dy);
            if d > best_dot {
                best = j;
                best_dot = d;
            }
            j = j + 1;
        }
        best
    }
}

/// The dot product of a table direction with `(dx, dy)`.
fn dot(c: i32, s: i32, dx: i64, dy: i64) -> (d: i128)
    ensures
        d == alignment(c as int, s as int, dx as int, dy as int),
{
    proof {
        assert(-0x8000_0000 * 0x8000_0000_0000_0000 <= c * dx <= 0x8000_0000
            * 0x8000_0000_0000_0000) by (nonlinear_arith)
            requires
                -0x8000_0000 <= c <= 0x8000_0000,
                -0x8000_0000_0000_0000 <= dx <= 0x8000_0000_0000_0000,
        ;
        assert(-0x8000_0000 * 0x8000_0000_0000_0000 <= s * dy <= 0x8000_0000
            * 0x8000_0000_0000_0000) by (nonlinear_arith)
            requires
                -0x8000_0000 <= s <= 0x8000_0000,
                -0x8000_0000_0000_0000 <= dy <= 0x8000_0000_0000_0000,
        ;
    }
    (c as i128) * (dx as i128) + (s as i128) * (dy as i128)
}

/// The bearing is a step of the table, none is better aligned, and none
/// before it is as well aligned.
pub proof fn lemma_bearing_is_best(t: &TrigTable, n: nat, dx: int, dy: int)
    requires
        1 <= n <= t.turn(),
    ensures
        0 <= t.best_among(n, dx, dy) < n,
        forall|j: int|
            0 <= j < n ==> #[trigger] t.alignment_at(j, dx, dy) <= t.alignment_at(
                t.best_among(n, dx, dy),
                dx,
                dy,
            ),
        forall|j: int|
            0 <= j < t.best_among(n, dx, dy) ==> #[trigger] t.alignment_at(j, dx, dy)
                < t.alignment_at(t.best_among(n, dx, dy), dx, dy),
    decreases n,
{
    if n > 1 {
        lemma_bearing_is_best(t, (n - 1) as nat, dx, dy);
    }
}

} // verus!
