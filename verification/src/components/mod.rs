//! The position part of a packet body and its coordinates.

pub mod lonlat;
pub mod position;
