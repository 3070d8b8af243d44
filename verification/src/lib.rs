//! A singly linked chain of geolocated, timestamped samples, and the
//! extraction of the contiguous sub-sequence whose timestamps fall within a
//! closed numeric range.

pub mod list;
pub mod telemetry;
