use vstd::prelude::*;

verus! {

/// A geographic position in fixed point: latitude and longitude in units of
/// 1e-7 degree, the resolution in which map extracts record coordinates.
#[derive(Clone, Copy, Debug, PartialEq, Eq, Structural)]
pub struct Location {
    pub latitude: i64,
    pub longitude: i64,
}

impl Location {
    /// Builds a location from latitude and longitude, both in 1e-7 degree.
    pub fn new(latitude: i64, longitude: i64) -> (r: Self)
        ensures
            r.latitude == latitude,
            r.longitude == longitude,
    {
        Location { latitude, longitude }
    }
}

} // verus!
