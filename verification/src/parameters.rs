//! The topographical parameters of sites.

use vstd::prelude::*;
use crate::units::{Elevation, Erodibility, Slope, UpliftRate, BASE_ELEVATION_LIMIT, ERODIBILITY_LIMIT, TAN_LIMIT, UPLIFT_LIMIT};

verus! {

/// The topographical parameters of one site; the shape of the terrain is
/// determined by these.
///
/// - `base_elevation` is the initial elevation (unit: L).
/// - `erodibility` is the main parameter determining the terrain's shape.
/// - `uplift_rate` is the uplift rate (unit: L/T).
/// - `is_outlet` marks the site as a permanent sink.
/// - `max_slope` is the maximum hillslope, as a tangent scaled by
///   `TAN_SCALE`; `None` leaves the slope unchecked.
#[derive(Clone, Copy, Debug)]
pub struct TopographicalParameters {
    pub base_elevation: Elevation,
    pub erodibility: Erodibility,
    pub uplift_rate: UpliftRate,
    pub is_outlet: bool,
    pub max_slope: Option<Slope>,
}

impl Default for TopographicalParameters {
    /// A flat, uniform, non-outlet site.
    fn default() -> (r: Self)
        ensures
            r.base_elevation == 0,
            r.erodibility == 1,
            r.uplift_rate == 1,
            !r.is_outlet,
            r.max_slope is None,
    {
        Self {
            base_elevation: 0,
            erodibility: 1,
            uplift_rate: 1,
            is_outlet: false,
            max_slope: None,
        }
    }
}

impl TopographicalParameters {
    /// The parameter values the solver admits: bounded base elevation and
    /// uplift, positive bounded erodibility, bounded slope tangent.
    pub open spec fn ok(self) -> bool {
        &&& -BASE_ELEVATION_LIMIT <= self.base_elevation <= BASE_ELEVATION_LIMIT
        &&& 1 <= self.erodibility < ERODIBILITY_LIMIT
        &&& 0 <= self.uplift_rate <= UPLIFT_LIMIT
        &&& (self.max_slope matches Some(t) ==> t < TAN_LIMIT)
    }

    pub fn set_base_elevation(self, base_elevation: Elevation) -> (r: Self)
        ensures
            r == (Self { base_elevation, ..self }),
    {
        Self { base_elevation, ..self }
    }

    pub fn set_erodibility(self, erodibility: Erodibility) -> (r: Self)
        ensures
            r == (Self { erodibility, ..self }),
    {
        Self { erodibility, ..self }
    }

    pub fn set_uplift_rate(self, uplift_rate: UpliftRate) -> (r: Self)
        ensures
            r == (Self { uplift_rate, ..self }),
    {
        Self { uplift_rate, ..self }
    }

    pub fn set_is_outlet(self, is_outlet: bool) -> (r: Self)
        ensures
            r == (Self { is_outlet, ..self }),
    {
        Self { is_outlet, ..self }
    }

    pub fn set_max_slope(self, max_slope: Option<Slope>) -> (r: Self)
        ensures
            r == (Self { max_slope, ..self }),
    {
        Self { max_slope, ..self }
    }
}

} // verus!
