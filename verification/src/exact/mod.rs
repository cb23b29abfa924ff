//! Aggregation keyed by the station's name itself.

pub mod aggregate;
pub mod check;
pub mod city;
pub mod decode;
pub mod find;
pub mod hash;
pub mod model;
pub mod number;
pub mod records;
pub mod reduce;
pub mod roundtrip;
pub mod slots;
pub mod thousands;
pub mod weather;
pub mod weather_map;
