//! Aggregation keyed by a fingerprint of the station's name.

pub mod aggregate;
pub mod check;
pub mod city;
pub mod decode;
pub mod model;
pub mod number;
pub mod records;
pub mod roundtrip;
pub mod reduce;
pub mod split;
pub mod thousands;
pub mod token;
pub mod weather;
pub mod weather_map;
