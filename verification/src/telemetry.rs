use vstd::prelude::*;

verus! {

/// A 2D geographic coordinate.
///
/// Each coordinate is carried as the raw bit pattern of its floating-point
/// value, so that the library never computes on it. Callers that hold the
/// coordinates as `f64` convert with `f64::to_bits` / `f64::from_bits`; the
/// chain logic only ever copies the value whole.
#[derive(Clone, Copy, Debug, PartialEq, Eq, Structural)]
pub struct Point {
    pub latitude_bits: u64,
    pub longitude_bits: u64,
}

impl Point {
    pub fn new(latitude_bits: u64, longitude_bits: u64) -> (p: Point)
        ensures
            p.latitude_bits == latitude_bits,
            p.longitude_bits == longitude_bits,
    {
        Point { latitude_bits, longitude_bits }
    }
}

/// One geolocated, timestamped sample: a coordinate paired with an unsigned
/// integer tick. A value type with no invariant; equality is field-wise.
#[derive(Clone, Copy, Debug, PartialEq, Eq, Structural)]
pub struct Telemetry {
    pub point: Point,
    pub time_stamp: u64,
}

impl Telemetry {
    pub fn new(point: Point, time_stamp: u64) -> (t: Telemetry)
        ensures
            t.point == point,
            t.time_stamp == time_stamp,
    {
        Telemetry { point, time_stamp }
    }
}

} // verus!
