//! Perpendicular distance of a point from a chord, in raw canonical units.

use vstd::prelude::*;
use crate::canonical::{x_ok, y_ok};
use crate::curve::Tup;

verus! {

/// Dot product of `p - s` with the normal `(s.y - e.y, e.x - s.x)` of the
/// chord from `s` to `e`.
pub open spec fn cross(p: Tup, s: Tup, e: Tup) -> int {
    (p.x - s.x) * (s.y - e.y) + (p.y - s.y) * (e.x - s.x)
}

/// Squared length of the chord from `s` to `e`.
pub open spec fn norm2(s: Tup, e: Tup) -> int {
    (s.y - e.y) * (s.y - e.y) + (e.x - s.x) * (e.x - s.x)
}

/// Integer square root: the largest `r` with `r * r <= n`.
pub open spec fn is_isqrt(n: int, r: int) -> bool {
    0 <= r && r * r <= n < (r + 1) * (r + 1)
}

/// Perpendicular distance of `p` from the line through `s` and `e`, with the
/// chord length `r` (its integer square root), rounded up: zero exactly for
/// points on the line, never below the true distance.
pub open spec fn perp(p: Tup, s: Tup, e: Tup, r: int) -> int {
    let c = if cross(p, s, e) < 0 { -cross(p, s, e) } else { cross(p, s, e) };
    (c + r - 1) / r
}

/// Points whose coordinates a curve can hold.
pub open spec fn tup_ok(p: Tup) -> bool {
    x_ok(p.x as int) && y_ok(p.y as int)
}

/// Integer square root, by bisection.
pub fn isqrt(n: u128) -> (r: u128)
    requires
        n < 0x1000000000000000000000000000,
    ensures
        is_isqrt(n as int, r as int),
        r < 0x40000000000000,
{
    let mut lo: u128 = 0;
    let mut hi: u128 = 0x40000000000000;
    assert(hi * hi == 0x1000000000000000000000000000);
    while lo + 1 < hi
        invariant
            lo < hi <= 0x40000000000000,
            lo * lo <= n,
            n < hi * hi,
        decreases hi - lo,
    {
        let mid = lo + (hi - lo) / 2;
        assert(mid * mid <= 0x40000000000000 * 0x40000000000000) by (nonlinear_arith)
            requires mid <= 0x40000000000000;
        if mid * mid <= n {
            lo = mid;
        } else {
            hi = mid;
        }
    }
    assert(hi == lo + 1);
    lo
}

/// Distance of `p` from the chord from `s` to `e`, as `perp` gives it.
pub fn perp_distance(p: Tup, s: Tup, e: Tup) -> (r: i128)
    requires
        tup_ok(p),
        tup_ok(s),
        tup_ok(e),
        s.x < e.x,
    ensures
        r == perp(p, s, e, sqrt_of(norm2(s, e))),
        r >= 0,
{
    let a: i128 = (p.x as i128 - s.x as i128);
    let b: i128 = (s.y as i128 - e.y as i128);
    let c: i128 = (p.y as i128 - s.y as i128);
    let d: i128 = (e.x as i128 - s.x as i128);
    assert(-0x40000000000000000000000 <= a * b <= 0x40000000000000000000000) by (nonlinear_arith)
        requires -0x40000000000000 <= a <= 0x40000000000000, -0x200000000 <= b <= 0x200000000;
    assert(-0x40000000000000000000000 <= c * d <= 0x40000000000000000000000) by (nonlinear_arith)
        requires -0x40000000000000 <= d <= 0x40000000000000, -0x200000000 <= c <= 0x200000000;
    assert(0 <= b * b <= 0x400000000000000000) by (nonlinear_arith)
        requires -0x200000000 <= b <= 0x200000000;
    assert(0 < d * d <= 0x400000000000000000000000000) by (nonlinear_arith)
        requires 0 < d <= 0x20000000000000;
    let cr: i128 = a * b + c * d;
    let n2: u128 = (b * b + d * d) as u128;
    let root = isqrt(n2);
    proof {
        lemma_sqrt_of(norm2(s, e), root as int);
        assert(root >= 1) by (nonlinear_arith)
            requires is_isqrt(n2 as int, root as int), n2 >= 1;
    }
    let abs_cr: i128 = if cr < 0 { -cr } else { cr };
    let q = (abs_cr as u128 + root - 1) / root;
    q as i128
}

/// The integer square root of `n >= 0`.
pub open spec fn sqrt_of(n: int) -> int {
    choose|r: int| is_isqrt(n, r)
}

proof fn lemma_sqrt_of(n: int, r: int)
    requires
        is_isqrt(n, r),
    ensures
        sqrt_of(n) == r,
{
    let q = sqrt_of(n);
    assert(is_isqrt(n, q));
    if q < r {
        assert((q + 1) * (q + 1) <= r * r) by (nonlinear_arith)
            requires 0 <= q < r;
    }
    if r < q {
        assert((r + 1) * (r + 1) <= q * q) by (nonlinear_arith)
            requires 0 <= r < q;
    }
}

} // verus!
