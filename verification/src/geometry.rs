//! Whole-number geometry: positions, magnitudes and square roots.

use vstd::prelude::*;
use vstd::arithmetic::div_mod::lemma_fundamental_div_mod;
use vstd::arithmetic::div_mod::lemma_fundamental_div_mod_converse;
use vstd::arithmetic::div_mod::lemma_mod_bound;
use vstd::arithmetic::div_mod::lemma_multiply_divide_le;

verus! {

/// A position or a displacement in world coordinates.
#[derive(Clone, Copy, Debug, PartialEq, Eq, Structural)]
pub struct Vector2 {
    pub x: i32,
    pub y: i32,
}

impl Vector2 {
    /// The vector with the given coordinates.
    pub fn new(x: i32, y: i32) -> (v: Vector2)
        ensures
            v == (Vector2 { x, y }),
    {
        Vector2 { x, y }
    }
}

/// The size of a number, without its sign.
pub open spec fn magnitude(v: int) -> int {
    if v < 0 {
        -v
    } else {
        v
    }
}

/// The square root of `n`, rounded down.
pub open spec fn int_sqrt(n: nat) -> nat
    decreases n,
{
    if n == 0 {
        0
    } else {
        let r = int_sqrt((n - 1) as nat);
        if (r + 1) * (r + 1) <= n {
            r + 1
        } else {
            r
        }
    }
}

/// `int_sqrt(n)` is the largest number whose square does not exceed `n`.
pub proof fn lemma_int_sqrt(n: nat)
    ensures
        int_sqrt(n) * int_sqrt(n) <= n,
        n < (int_sqrt(n) + 1) * (int_sqrt(n) + 1),
    decreases n,
{
    if n > 0 {
        lemma_int_sqrt((n - 1) as nat);
        let r = int_sqrt((n - 1) as nat);
        let s = int_sqrt(n);
        assert(r * r <= n);
        if (r + 1) * (r + 1) <= n {
            assert(s == r + 1);
            assert(n < (s + 1) * (s + 1)) by (nonlinear_arith)
                requires
                    n - 1 < (r + 1) * (r + 1),
                    s == r + 1,
                    r >= 0,
            ;
        } else {
            assert(s == r);
            assert(n < (s + 1) * (s + 1));
        }
    } else {
        assert(int_sqrt(n) == 0);
        assert(n < (int_sqrt(n) + 1) * (int_sqrt(n) + 1)) by (nonlinear_arith)
            requires
                n == 0,
                int_sqrt(n) == 0,
        ;
    }
}

/// Only one number has its square at or below `n` and the next square
/// above `n`.
pub proof fn lemma_int_sqrt_unique(n: nat, r: nat)
    requires
        r * r <= n,
        n < (r + 1) * (r + 1),
    ensures
        r == int_sqrt(n),
{
    lemma_int_sqrt(n);
    let s = int_sqrt(n);
    if r < s {
        assert((r + 1) * (r + 1) <= s * s) by (nonlinear_arith)
            requires
                r + 1 <= s,
                r >= 0,
        ;
    }
    if s < r {
        assert((s + 1) * (s + 1) <= r * r) by (nonlinear_arith)
            requires
                s + 1 <= r,
                s >= 0,
        ;
    }
}

/// The size of a 32-bit number, without its sign.
pub fn magnitude_of(v: i32) -> (m: u32)
    ensures
        m == magnitude(v as int),
{
    if v < 0 {
        (-(v as i64)) as u32
    } else {
        v as u32
    }
}

/// The square root of `n`, rounded down, for `n` below 2 to the 96th.
pub fn sqrt_floor_wide(n: u128) -> (r: u64)
    requires
        n < 0x1_0000_0000_0000_0000_0000_0000,
    ensures
        r == int_sqrt(n as nat),
        r < 0x1_0000_0000_0000,
{
    let mut lo: u128 = 0;
    let mut hi: u128 = 0x1_0000_0000_0000;
    assert(0x1_0000_0000_0000u128 * 0x1_0000_0000_0000u128 > n) by (nonlinear_arith)
        requires
            n < 0x1_0000_0000_0000_0000_0000_0000,
    ;
    while hi - lo > 1
        invariant
            lo < hi <= 0x1_0000_0000_0000,
            lo * lo <= n,
            n < hi * hi,
        decreases hi - lo,
    {
        let mid: u128 = lo + (hi - lo) / 2;
        assert(mid * mid <= 0xffff_ffff_ffff * 0xffff_ffff_ffff) by (nonlinear_arith)
            requires
                0 <= mid <= 0xffff_ffff_ffff,
        ;
        if mid * mid <= n {
            lo = mid;
        } else {
            hi = mid;
        }
    }
    proof {
        lemma_int_sqrt_unique(n as nat, lo as nat);
    }
    lo as u64
}

/// Division that rounds down, with the remainder that is never negative:
/// `x == q * d + r` and `0 <= r < d`.
pub fn div_floor(x: i64, d: u64) -> (qr: (i64, u64))
    requires
        d > 0,
    ensures
        qr.0 == (x as int) / (d as int),
        qr.1 == (x as int) % (d as int),
        qr.1 < d,
{
    proof {
        lemma_fundamental_div_mod(x as int, d as int);
        lemma_mod_bound(x as int, d as int);
    }
    if x >= 0 {
        let n: u64 = x as u64;
        proof {
            assert((n as int) / (d as int) <= n as int) by (nonlinear_arith)
                requires
                    n >= 0,
                    d > 0,
            ;
            assert((n as int) / (d as int) >= 0) by (nonlinear_arith)
                requires
                    n >= 0,
                    d > 0,
            ;
        }
        ((n / d) as i64, n % d)
    } else {
        let m: u64 = (-(x + 1)) as u64;
        let q0: u64 = m / d;
        let r0: u64 = m % d;
        proof {
            let di = d as int;
            lemma_fundamental_div_mod(m as int, di);
            lemma_mod_bound(m as int, di);
            assert((m as int) / di <= m as int) by (nonlinear_arith)
                requires
                    m >= 0,
                    di > 0,
            ;
            assert((m as int) / di >= 0) by (nonlinear_arith)
                requires
                    m >= 0,
                    di > 0,
            ;
            assert(x as int == (-(q0 as int) - 1) * di + (di - 1 - r0)) by (nonlinear_arith)
                requires
                    m as int == di * (q0 as int) + r0,
                    x as int == -(m as int) - 1,
            ;
            lemma_fundamental_div_mod_converse(x as int, di, -(q0 as int) - 1, di - 1 - r0);
        }
        (-(q0 as i64) - 1, d - 1 - r0)
    }
}

/// `x` divided by `d`, rounded toward zero.
pub open spec fn truncated(x: int, d: int) -> int {
    if x < 0 {
        -((-x) / d)
    } else {
        x / d
    }
}

/// Division that rounds toward zero.
pub fn div_trunc(x: i64, d: u64) -> (q: i64)
    requires
        d > 0,
    ensures
        q == truncated(x as int, d as int),
        magnitude(q as int) <= magnitude(x as int),
{
    if x >= 0 {
        let n: u64 = x as u64;
        proof {
            assert((n as int) / (d as int) <= n as int) by (nonlinear_arith)
                requires
                    n >= 0,
                    d > 0,
            ;
            assert((n as int) / (d as int) >= 0) by (nonlinear_arith)
                requires
                    n >= 0,
                    d > 0,
            ;
        }
        (n / d) as i64
    } else {
        let m: u64 = (-(x + 1)) as u64 + 1;
        proof {
            assert((m as int) / (d as int) <= m as int) by (nonlinear_arith)
                requires
                    m >= 0,
                    d > 0,
            ;
            assert((m as int) / (d as int) >= 0) by (nonlinear_arith)
                requires
                    m >= 0,
                    d > 0,
            ;
        }
        let q0: u64 = m / d;
        if q0 > 0x7fff_ffff_ffff_ffff {
            -0x8000_0000_0000_0000
        } else {
            -(q0 as i64)
        }
    }
}

/// A number lies in group `i` of groups of `step` exactly when it is one
/// of the `step` numbers from `i * step` on.
pub proof fn lemma_group(px: int, step: int, i: int)
    requires
        step >= 1,
        0 <= px,
        0 <= i,
    ensures
        (px / step == i) <==> (i * step <= px < i * step + step),
{
    lemma_fundamental_div_mod(px, step);
    lemma_mod_bound(px, step);
    if i * step <= px < i * step + step {
        lemma_fundamental_div_mod_converse(px, step, i, px - i * step);
    } else {
        if px / step == i {
            assert(step * (px / step) == i * step) by (nonlinear_arith)
                requires
                    px / step == i,
            ;
        }
    }
}

/// A coordinate brought into the range from 0 to `limit`.
pub open spec fn clamped(v: int, limit: int) -> int {
    if v < 0 {
        0
    } else if v > limit {
        limit
    } else {
        v
    }
}

/// The size of the largest picture of the proportions `w : h` that fits
/// a frame `frame_w` by `frame_h`: as wide as the frame where that makes
/// it no higher than the frame, else as high. A picture without width or
/// height fits as nothing.
pub open spec fn fitted(frame_w: int, frame_h: int, w: int, h: int) -> (int, int) {
    if w <= 0 || h <= 0 {
        (0, 0)
    } else if frame_w * h <= frame_h * w {
        (frame_w, (h * frame_w) / w)
    } else {
        ((w * frame_h) / h, frame_h)
    }
}

/// The size of the largest picture of the proportions `w : h` that fits
/// a frame.
pub fn fit_inside(frame_w: u32, frame_h: u32, w: u32, h: u32) -> (size: (u32, u32))
    ensures
        size.0 == fitted(frame_w as int, frame_h as int, w as int, h as int).0,
        size.1 == fitted(frame_w as int, frame_h as int, w as int, h as int).1,
        size.0 <= frame_w,
        size.1 <= frame_h,
{
    if w == 0 || h == 0 {
        return (0, 0);
    }
    proof {
        assert(0 <= frame_w * h <= 0xffff_ffff * 0xffff_ffff) by (nonlinear_arith)
            requires
                0 <= frame_w <= 0xffff_ffff,
                0 <= h <= 0xffff_ffff,
        ;
        assert(0 <= frame_h * w <= 0xffff_ffff * 0xffff_ffff) by (nonlinear_arith)
            requires
                0 <= frame_h <= 0xffff_ffff,
                0 <= w <= 0xffff_ffff,
        ;
        assert(h * frame_w == frame_w * h) by (nonlinear_arith);
        assert(w * frame_h == frame_h * w) by (nonlinear_arith);
    }
    let across: u64 = (frame_w as u64) * (h as u64);
    let down: u64 = (frame_h as u64) * (w as u64);
    if across <= down {
        proof {
            assert(w * frame_h == frame_h * w) by (nonlinear_arith);
            lemma_multiply_divide_le(across as int, w as int, frame_h as int);
            assert((across as int) / (w as int) >= 0) by (nonlinear_arith)
                requires
                    across >= 0,
                    w > 0,
            ;
        }
        (frame_w, (across / (w as u64)) as u32)
    } else {
        proof {
            assert(h * frame_w == frame_w * h) by (nonlinear_arith);
            lemma_multiply_divide_le(down as int, h as int, frame_w as int);
            assert((down as int) / (h as int) >= 0) by (nonlinear_arith)
                requires
                    down >= 0,
                    h > 0,
            ;
        }
        ((down / (h as u64)) as u32, frame_h)
    }
}

} // verus!
