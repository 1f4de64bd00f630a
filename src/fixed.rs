//! Fixed-point arithmetic shared by the layout and colouring passes.
use vstd::prelude::*;

verus! {

/// One world unit, in position units.
pub const POS_ONE: i64 = 1024;

/// One unit of mass.
pub const MASS_ONE: u64 = 1024;

/// The largest coordinate magnitude a position may have.
pub const POS_MAX: i64 = 0x100_0000_0000;

/// Largest integer whose square does not exceed `s`, as a mathematical value.
pub open spec fn is_isqrt(s: int, r: int) -> bool {
    0 <= r && r * r <= s && s < (r + 1) * (r + 1)
}

/// The square root of `s`, rounded down.
pub open spec fn sqrt_floor(s: int) -> int {
    choose|r: int| is_isqrt(s, r)
}

pub proof fn lemma_isqrt_unique(s: int, r1: int, r2: int)
    requires
        is_isqrt(s, r1),
        is_isqrt(s, r2),
    ensures
        r1 == r2,
{
    if r1 < r2 {
        assert((r1 + 1) * (r1 + 1) <= r2 * r2) by (nonlinear_arith)
            requires 0 <= r1 + 1 <= r2;
    } else if r2 < r1 {
        assert((r2 + 1) * (r2 + 1) <= r1 * r1) by (nonlinear_arith)
            requires 0 <= r2 + 1 <= r1;
    }
}

pub proof fn lemma_sqrt_floor(s: int, r: int)
    requires
        is_isqrt(s, r),
    ensures
        sqrt_floor(s) == r,
{
    let c = sqrt_floor(s);
    assert(is_isqrt(s, c));
    lemma_isqrt_unique(s, r, c);
}

/// Integer square root, rounded down.
pub fn isqrt(s: u128) -> (r: u64)
    ensures
        is_isqrt(s as int, r as int),
        r == sqrt_floor(s as int),
{
    // invariant: lo^2 <= s < hi^2
    let mut lo: u128 = 0;
    let mut hi: u128 = 0x1_0000_0000_0000_0000;
    assert(s < hi * hi) by (nonlinear_arith)
        requires hi == 0x1_0000_0000_0000_0000u128, s <= u128::MAX;
    while hi - lo > 1
        invariant
            lo < hi <= 0x1_0000_0000_0000_0000u128,
            lo * lo <= s,
            s < hi * hi,
        decreases hi - lo,
    {
        let mid: u128 = lo + (hi - lo) / 2;
        assert(mid < 0x1_0000_0000_0000_0000u128);
        assert(mid * mid < 0x1_0000_0000_0000_0000_0000_0000_0000_0000int) by (nonlinear_arith)
            requires mid < 0x1_0000_0000_0000_0000u128;
        if mid * mid <= s {
            lo = mid;
        } else {
            hi = mid;
        }
    }
    assert(hi == lo + 1);
    proof {
        lemma_sqrt_floor(s as int, lo as int);
    }
    lo as u64
}

/// `v` held to the range `[-bound, bound]`.
pub open spec fn clamp_spec(v: int, bound: int) -> int {
    if v > bound {
        bound
    } else if v < -bound {
        -bound
    } else {
        v
    }
}

pub fn clamp_i128(v: i128, bound: i128) -> (r: i128)
    requires
        bound >= 0,
    ensures
        r == clamp_spec(v as int, bound as int),
{
    if v > bound {
        bound
    } else if v < -bound {
        -bound
    } else {
        v
    }
}

} // verus!
