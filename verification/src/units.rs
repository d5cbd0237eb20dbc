//! Scalar quantities of the model and the bounds that keep their
//! arithmetic exact.
//!
//! Every quantity is a fixed-point integer. Lengths, areas and erodibilities
//! are unsigned; elevations and uplift rates are signed. Response times and
//! slope tangents carry an extra binary scale (`RT_SCALE`, `TAN_SCALE`) for
//! sub-unit precision. The `*_LIMIT` bounds are what lets every product and
//! sum in the solver be proved free of overflow.

use vstd::prelude::*;

verus! {

/// Length (fixed-point, unit: L).
pub type Length = u64;

/// Elevation (fixed-point, unit: L; signed).
pub type Elevation = i64;

/// Uplift rate (fixed-point, unit: L/T; signed).
pub type UpliftRate = i64;

/// Erodibility (positive integer factor of the erosion-wave celerity).
pub type Erodibility = u64;

/// Area (fixed-point, unit: L^2).
pub type Area = u64;

/// Slope, stored as a tangent scaled by `TAN_SCALE`.
pub type Slope = u64;

/// Iteration step counter.
pub type Step = u32;

/// Response time (travel time of an erosion wave, scaled by `RT_SCALE`).
pub type ResponseTime = u128;

/// Binary scale applied to response times.
pub const RT_SCALE: u64 = 65536;

/// Binary scale applied to slope tangents.
pub const TAN_SCALE: u64 = 65536;

/// Largest admitted number of sites.
pub const SITE_LIMIT: usize = 16777216;

/// Exclusive upper bound on edge lengths.
pub const LENGTH_LIMIT: u64 = 16777216;

/// Exclusive upper bound on per-site cell areas.
pub const AREA_LIMIT: u64 = 4294967296;

/// Exclusive upper bound on erodibilities.
pub const ERODIBILITY_LIMIT: u64 = 4294967296;

/// Inclusive bound on the magnitude of uplift rates.
pub const UPLIFT_LIMIT: i64 = 128;

/// Inclusive bound on the magnitude of base elevations.
pub const BASE_ELEVATION_LIMIT: i64 = 0x100_0000_0000;

/// Exclusive upper bound on scaled slope tangents.
pub const TAN_LIMIT: u64 = 1099511627776;

/// Inclusive bound on the magnitude of every elevation the solver
/// produces; initial fields must also respect it.
pub const ELEVATION_LIMIT: i64 = 0x2000_0000_0000_0000;

/// The integer square root: the largest `r` with `r * r <= v`.
pub fn isqrt(v: u64) -> (r: u64)
    ensures
        r * r <= v,
        v < (r + 1) * (r + 1),
        r < 4294967296,
{
    let mut lo: u64 = 0;
    let mut hi: u64 = 4294967296;
    proof {
        assert((4294967296u64 as int) * (4294967296u64 as int) > u64::MAX as int) by (nonlinear_arith);
    }
    while lo + 1 < hi
        invariant
            lo < hi,
            hi <= 4294967296,
            (lo as int) * (lo as int) <= v as int,
            (v as int) < (hi as int) * (hi as int),
        decreases hi - lo,
    {
        let mid = lo + (hi - lo) / 2;
        proof {
            assert((mid as int) * (mid as int) <= (4294967296int) * (4294967296int))
                by (nonlinear_arith)
                requires mid <= 4294967296int;
        }
        if (mid as u128) * (mid as u128) <= v as u128 {
            lo = mid;
        } else {
            hi = mid;
        }
    }
    lo
}

} // verus!
