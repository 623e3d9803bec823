//! Small integer helpers shared by the pathfinding and visibility engines.
//!
//! Distances are kept in fixed-point form: one grid cell of cardinal
//! movement counts 100 units, so a value of `145` stands for roughly the
//! diagonal of a unit cell. This keeps every quantity an integer while
//! preserving the cost ratios of the movement model.

use vstd::prelude::*;

verus! {

/// Floor of the square root: the unique `r` with `r * r <= v < (r + 1) * (r + 1)`.
pub fn isqrt_u64(v: u64) -> (r: u64)
    ensures
        r * r <= v,
        v < (r + 1) * (r + 1),
        r <= 0xffff_ffff,
{
    let mut lo: u64 = 0;
    let mut hi: u64 = 0x1_0000_0000;
    while lo + 1 < hi
        invariant
            lo < hi <= 0x1_0000_0000,
            lo * lo <= v,
            hi * hi > v,
        decreases hi - lo,
    {
        let mid: u64 = lo + (hi - lo) / 2;
        proof {
            assert(mid * mid <= 0xffff_ffff_ffff_ffff) by (nonlinear_arith)
                requires mid < 0x1_0000_0000;
        }
        if mid * mid <= v {
            lo = mid;
        } else {
            hi = mid;
        }
    }
    lo
}

} // verus!
