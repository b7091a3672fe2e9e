//! Exact fixed-point arithmetic in micro-units.
//!
//! A quantity `q` stands for the rational `q / MICRO`.  Products are
//! rescaled with truncating division and every result saturates at
//! `CAP` in magnitude, so each operation is total and has an exact
//! mathematical description.
use vstd::prelude::*;

verus! {

/// Fixed-point scale: one unit is represented as 1_000_000 micro-units.
pub const MICRO: i64 = 1_000_000;

/// Saturation bound on every network quantity, in micro-units.
pub const CAP: i64 = 1_000_000_000_000;

/// Clamp a mathematical integer into `[-CAP, CAP]`.
pub open spec fn sat(x: int) -> int {
    if x > CAP {
        CAP as int
    } else if x < -(CAP as int) {
        -(CAP as int)
    } else {
        x
    }
}

/// Division truncating toward zero, as Rust's `/` computes it.
pub open spec fn tdiv(x: int, d: int) -> int
    recommends
        d > 0,
{
    if x >= 0 {
        x / d
    } else {
        -((-x) / d)
    }
}

/// Saturating fixed-point sum: `sat(a + b)`.
pub fn fix_add(a: i64, b: i64) -> (r: i64)
    ensures
        r == sat(a + b),
{
    let s: i128 = a as i128 + b as i128;
    if s > CAP as i128 {
        CAP
    } else if s < -(CAP as i128) {
        -CAP
    } else {
        s as i64
    }
}

/// Saturating fixed-point difference: `sat(a - b)`.
pub fn fix_sub(a: i64, b: i64) -> (r: i64)
    ensures
        r == sat(a - b),
{
    let s: i128 = a as i128 - b as i128;
    if s > CAP as i128 {
        CAP
    } else if s < -(CAP as i128) {
        -CAP
    } else {
        s as i64
    }
}

/// Saturating fixed-point product: `sat(tdiv(a * b, MICRO))`.
pub fn fix_mul(a: i64, b: i64) -> (r: i64)
    ensures
        r == sat(tdiv(a as int * b as int, MICRO as int)),
{
    proof {
        assert(a as int * b as int <= 0x4000_0000_0000_0000_0000_0000_0000_0000int
            && a as int * b as int >= -0x4000_0000_0000_0000_0000_0000_0000_0000int) by (nonlinear_arith)
            requires
                -0x8000_0000_0000_0000int <= a as int <= 0x7fff_ffff_ffff_ffffint,
                -0x8000_0000_0000_0000int <= b as int <= 0x7fff_ffff_ffff_ffffint,
        ;
    }
    let p: i128 = (a as i128) * (b as i128);
    let m: u128 = if p < 0 {
        (-p) as u128
    } else {
        p as u128
    };
    let q: u128 = m / (MICRO as u128);
    proof {
        assert(q <= m) by (nonlinear_arith)
            requires
                q == m / (MICRO as u128),
        ;
    }
    if p < 0 {
        if q > CAP as u128 {
            -CAP
        } else {
            -(q as i64)
        }
    } else {
        if q > CAP as u128 {
            CAP
        } else {
            q as i64
        }
    }
}

/// Floor of the square root of `x`.
pub fn isqrt(x: u128) -> (r: u64)
    ensures
        (r as int) * (r as int) <= x,
        (r as int + 1) * (r as int + 1) > x,
{
    if x == 0 {
        return 0;
    }
    let mut lo: u128 = 0;
    let mut hi: u128 = 0xffff_ffff_ffff_ffffu128 + 1;
    proof {
        assert((hi as int) * (hi as int) > x) by (nonlinear_arith)
            requires
                hi == 0x1_0000_0000_0000_0000u128,
                x <= 0xffff_ffff_ffff_ffff_ffff_ffff_ffff_ffffu128,
        ;
    }
    while lo + 1 < hi
        invariant
            lo < hi,
            hi <= 0x1_0000_0000_0000_0000u128,
            (lo as int) * (lo as int) <= x,
            (hi as int) * (hi as int) > x,
        decreases hi - lo,
    {
        let mid: u128 = lo + (hi - lo) / 2;
        proof {
            assert((mid as int) * (mid as int) < 0xffff_ffff_ffff_ffff_ffff_ffff_ffff_ffffint)
                by (nonlinear_arith)
                requires
                    mid < 0x1_0000_0000_0000_0000u128,
            ;
        }
        if mid * mid <= x {
            lo = mid;
        } else {
            hi = mid;
        }
    }
    lo as u64
}

} // verus!
