use vstd::prelude::*;

verus! {

/// A coordinate given in decimicro-degrees (`1e-7` degrees) of latitude and longitude.
#[derive(Copy, Clone, Debug, PartialEq, Eq, Structural)]
pub struct Coordinate {
    pub decimicro_lat: i32,
    pub decimicro_lon: i32,
}

impl Coordinate {
    pub fn new(decimicro_lat: i32, decimicro_lon: i32) -> (c: Coordinate)
        ensures
            c.decimicro_lat == decimicro_lat,
            c.decimicro_lon == decimicro_lon,
    {
        Coordinate { decimicro_lat, decimicro_lon }
    }
}

} // verus!
