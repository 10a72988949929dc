//! The animation of a collectible: which frame of its sprite sheet
//! shows, and how far it floats up and down. Its phase is counted in
//! steps, and a full cycle has as many steps as a full turn.

use vstd::prelude::*;
use crate::geometry::{div_trunc, truncated};
use crate::trig::TrigTable;

verus! {

/// The frames of the sprite sheet, side by side.
pub const COIN_FRAMES: u32 = 12;

/// How far a collectible floats from its rest height, in pixels.
pub const FLOAT_HEIGHT: i64 = 8;

/// How many cycles the menu's clock runs before it starts over.
pub const MENU_CYCLES: u64 = 100;

/// The clock of the menu's animation, in steps of a cycle.
pub struct MenuAnimation {
    pub t: u64,
}

/// The menu's clock after `dt` more steps: past `MENU_CYCLES` cycles it
/// starts over within the first.
pub open spec fn clock_after(t: int, dt: int, cycle: int) -> int {
    if t + dt > MENU_CYCLES * cycle {
        (t + dt) % cycle
    } else {
        t + dt
    }
}

/// The size of the menu's picture at time `t`, in thousandths: it swells
/// and shrinks by three hundredths, one and a half times as fast as the
/// clock.
pub open spec fn pulse_at(t: int, trig: &TrigTable) -> int {
    1000 + truncated(30 * trig.sin_at((t * 3) / 2), trig.scale as int)
}

/// How far the menu's picture hangs below its place at time `t`, in
/// pixels: it swings by six pixels, seven tenths as fast as the clock.
pub open spec fn bob_at(t: int, trig: &TrigTable) -> int {
    truncated(6 * trig.sin_at((t * 7) / 10), trig.scale as int)
}

impl MenuAnimation {
    /// A clock at its start.
    pub fn new() -> (m: MenuAnimation)
        ensures
            m.t == 0,
    {
        MenuAnimation { t: 0 }
    }

    /// Runs the clock `dt` steps on.
    pub fn update(&mut self, dt: u32, cycle: u32)
        requires
            cycle > 0,
        ensures
            final(self).t == clock_after(old(self).t as int, dt as int, cycle as int),
    {
        let sum: u128 = self.t as u128 + dt as u128;
        let limit: u128 = 100 * (cycle as u128);
        if sum > limit {
            self.t = (sum % (cycle as u128)) as u64;
        } else {
            self.t = sum as u64;
        }
    }

    /// The size of the menu's picture, in thousandths.
    pub fn scale(&self, trig: &TrigTable) -> (s: i64)
        requires
            trig.wf(),
        ensures
            s == pulse_at(self.t as int, trig),
    {
        let sin: i32 = sin_of_wide(trig, (self.t as u128 * 3) / 2);
        1000 + div_trunc(30 * (sin as i64), trig.scale as u64)
    }

    /// How far the menu's picture hangs below its place, in pixels.
    pub fn bob(&self, trig: &TrigTable) -> (b: i64)
        requires
            trig.wf(),
        ensures
            b == bob_at(self.t as int, trig),
    {
        let sin: i32 = sin_of_wide(trig, (self.t as u128 * 7) / 10);
        div_trunc(6 * (sin as i64), trig.scale as u64)
    }
}

/// The y component of the direction at an angle of any size.
fn sin_of_wide(trig: &TrigTable, angle: u128) -> (s: i32)
    requires
        trig.wf(),
    ensures
        s == trig.sin_at(angle as int),
{
    let n: usize = trig.steps();
    let k: u128 = angle % (n as u128);
    proof {
        vstd::arithmetic::div_mod::lemma_small_mod(k as nat, n as nat);
    }
    trig.sin_of(k as i64)
}

/// The animation of a collectible.
pub struct CoinAnimation;

/// The frame that shows at a phase: the cycle is cut into `COIN_FRAMES`
/// equal parts.
pub open spec fn frame_at(animation_time: int, cycle: int) -> int {
    ((animation_time * COIN_FRAMES) / cycle) % (COIN_FRAMES as int)
}

/// The phase after `delta` more steps. One that has passed the end of the
/// cycle starts over.
pub open spec fn phase_after(current: int, delta: int, cycle: int) -> int {
    if current + delta > cycle {
        (current + delta) % cycle
    } else {
        current + delta
    }
}

/// The height above rest at a phase: the floating runs at four fifths of
/// the speed of the frames, and swings by `FLOAT_HEIGHT` either way.
pub open spec fn float_at(animation_time: int, trig: &TrigTable) -> int {
    truncated(FLOAT_HEIGHT * trig.sin_at((animation_time * 4) / 5), trig.scale as int)
}

impl CoinAnimation {
    /// The frame of the sprite sheet that shows at a phase.
    pub fn get_current_frame(animation_time: u32, cycle: u32) -> (frame: usize)
        requires
            cycle > 0,
        ensures
            frame == frame_at(animation_time as int, cycle as int),
            frame < COIN_FRAMES,
    {
        let part: u64 = (animation_time as u64 * COIN_FRAMES as u64) / (cycle as u64);
        (part % (COIN_FRAMES as u64)) as usize
    }

    /// How far the collectible floats above its rest height at a phase;
    /// negative below it.
    pub fn get_float_offset(animation_time: u32, trig: &TrigTable) -> (offset: i64)
        requires
            trig.wf(),
        ensures
            offset == float_at(animation_time as int, trig),
            -0x4_0000_0000 <= offset <= 0x4_0000_0000,
    {
        let angle: u64 = (animation_time as u64 * 4) / 5;
        let s: i32 = trig.sin_of(angle as i64);
        div_trunc(FLOAT_HEIGHT * (s as i64), trig.scale as u64)
    }

    /// The phase after `delta` more steps of a cycle of `cycle` steps.
    pub fn update_time(current_time: u32, delta: u32, cycle: u32) -> (time: u32)
        requires
            cycle > 0,
        ensures
            time == phase_after(current_time as int, delta as int, cycle as int),
    {
        let sum: u64 = current_time as u64 + delta as u64;
        if sum > cycle as u64 {
            (sum % (cycle as u64)) as u32
        } else {
            sum as u32
        }
    }

    /// Where the frame that shows at a phase begins in the sprite sheet,
    /// whose frames are `frame_width` wide.
    pub fn get_frame_offset(animation_time: u32, frame_width: u32, cycle: u32) -> (offset: u64)
        requires
            cycle > 0,
        ensures
            offset == frame_at(animation_time as int, cycle as int) * frame_width,
    {
        let current_frame: usize = Self::get_current_frame(animation_time, cycle);
        proof {
            assert(current_frame * frame_width <= 12 * 0xffff_ffff) by (nonlinear_arith)
                requires
                    0 <= current_frame < 12,
                    0 <= frame_width <= 0xffff_ffff,
            ;
        }
        current_frame as u64 * frame_width as u64
    }
}

} // verus!
