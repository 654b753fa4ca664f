//! The canonical number: a signed fixed-point value with 32 fractional bits,
//! held in an `i64`. All curve arithmetic happens on these raw integers.

use vstd::prelude::*;

verus! {

/// The canonical value of 1.0.
pub const ONE: i64 = 4294967296;

/// Largest magnitude of a domain value (2^52 raw, i.e. 2^20 whole units).
pub const X_LIMIT: i64 = 4503599627370496;

/// Snapping distance for the first and last range value (about 0.0001).
pub const EPSILON: i64 = 429497;

/// A domain value that curves can hold.
pub open spec fn x_ok(x: int) -> bool {
    -X_LIMIT <= x <= X_LIMIT
}

/// A range value in [0, 1].
pub open spec fn y_ok(y: int) -> bool {
    0 <= y <= ONE
}

/// Linear interpolation of the value at `q` on the segment from `(lq, lv)` to
/// `(rq, rv)`, rounded down.
#[verifier::opaque]
pub open spec fn interp(q: int, lq: int, lv: int, rq: int, rv: int) -> int {
    lv + (rv - lv) * (q - lq) / (rq - lq)
}

/// `h * t / d` lies in `[0, h]` when `0 <= t <= d`.
pub proof fn lemma_scaled_fraction(h: int, t: int, d: int)
    requires
        0 <= h,
        0 <= t <= d,
        0 < d,
    ensures
        0 <= h * t / d <= h,
        t == 0 ==> h * t / d == 0,
        t == d ==> h * t / d == h,
{
    assert(0 <= h * t <= h * d) by (nonlinear_arith)
        requires 0 <= h, 0 <= t <= d;
    assert(h * d == d * h) by (nonlinear_arith);
    vstd::arithmetic::div_mod::lemma_div_is_ordered(h * t, h * d, d);
    vstd::arithmetic::div_mod::lemma_div_multiples_vanish(h, d);
    if t == d {
        assert(h * t == h * d);
    }
    vstd::arithmetic::div_mod::lemma_div_pos_is_pos(h * t, d);
    if t == 0 {
        assert(h * t == 0);
    }
}

/// `h * t / d` grows with `t`.
pub proof fn lemma_scaled_fraction_monotone(h: int, t1: int, t2: int, d: int)
    requires
        0 <= h,
        t1 <= t2,
        0 < d,
    ensures
        h * t1 / d <= h * t2 / d,
{
    assert(h * t1 <= h * t2) by (nonlinear_arith)
        requires 0 <= h, t1 <= t2;
    vstd::arithmetic::div_mod::lemma_div_is_ordered(h * t1, h * t2, d);
}

/// Interpolation stays between the two end values.
pub proof fn lemma_interp_bounds(q: int, lq: int, lv: int, rq: int, rv: int)
    requires
        lq <= q <= rq,
        lq < rq,
        lv <= rv,
    ensures
        lv <= interp(q, lq, lv, rq, rv) <= rv,
        q == lq ==> interp(q, lq, lv, rq, rv) == lv,
        q == rq ==> interp(q, lq, lv, rq, rv) == rv,
{
    reveal(interp);
    lemma_scaled_fraction(rv - lv, q - lq, rq - lq);
}

/// Exact `interp`, computed without overflow.
pub fn lerp(q: i64, lq: i64, lv: i64, rq: i64, rv: i64) -> (r: i64)
    requires
        lq <= q <= rq,
        lq < rq,
        lv <= rv,
        x_ok(q as int),
        x_ok(lq as int),
        x_ok(rq as int),
        x_ok(lv as int),
        x_ok(rv as int),
    ensures
        r == interp(q as int, lq as int, lv as int, rq as int, rv as int),
        lv <= r <= rv,
{
    proof {
        reveal(interp);
        lemma_interp_bounds(q as int, lq as int, lv as int, rq as int, rv as int);
    }
    let h: u128 = (rv - lv) as u128;
    let t: u128 = (q - lq) as u128;
    let d: u128 = (rq - lq) as u128;
    assert(h * t <= 0x100000000000000000000000000000) by (nonlinear_arith)
        requires h <= 0x40000000000000, t <= 0x40000000000000;
    let p: u128 = h * t;
    let f: u128 = p / d;
    lv + (f as i64)
}

/// Rounding down `h * t / d` and then `q * d / h` loses less than
/// `d / h + 1`.
pub proof fn lemma_floor_round_trip(t: int, d: int, h: int)
    requires
        0 <= t < d,
        0 < h,
    ensures
        ({
            let q = h * t / d;
            &&& 0 <= q < h
            &&& t - d / h - 1 <= q * d / h <= t
        }),
{
    let q = h * t / d;
    vstd::arithmetic::div_mod::lemma_fundamental_div_mod(h * t, d);
    let rq = (h * t) % d;
    vstd::arithmetic::div_mod::lemma_mod_bound(h * t, d);
    assert(h * t == d * q + rq);
    assert(0 <= q) by (nonlinear_arith)
        requires h * t == d * q + rq, 0 <= rq < d, 0 <= h, 0 <= t, 0 < d;
    assert(q < h) by (nonlinear_arith)
        requires h * t == d * q + rq, 0 <= rq < d, 0 < h, t < d, 0 < d;
    let p = q * d / h;
    vstd::arithmetic::div_mod::lemma_fundamental_div_mod(q * d, h);
    let rp = (q * d) % h;
    vstd::arithmetic::div_mod::lemma_mod_bound(q * d, h);
    assert(q * d == h * p + rp);
    let e = d / h;
    vstd::arithmetic::div_mod::lemma_fundamental_div_mod(d, h);
    vstd::arithmetic::div_mod::lemma_mod_bound(d, h);
    assert(d == h * e + d % h);
    assert(p <= t) by (nonlinear_arith)
        requires q * d == h * p + rp, 0 <= rp < h, h * t == d * q + rq, 0 <= rq < d, 0 < h;
    assert(t - e - 1 <= p) by (nonlinear_arith)
        requires
            q * d == h * p + rp,
            0 <= rp < h,
            h * t == d * q + rq,
            0 <= rq < d,
            d == h * e + d % h,
            0 <= d % h < h,
            0 < h;
}

/// The value of `interp`.
pub proof fn lemma_interp_value(q: int, lq: int, lv: int, rq: int, rv: int)
    ensures
        interp(q, lq, lv, rq, rv) == lv + (rv - lv) * (q - lq) / (rq - lq),
{
    reveal(interp);
}

} // verus!
