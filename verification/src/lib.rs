//! The One Billion Row Challenge: aggregation of weather measurements, one
//! `station;temperature` record per line, into minimum, mean and maximum.

pub mod bytes;
pub mod generate;
pub mod mapping;
pub mod probe;
pub mod scanner;
pub mod stats;
pub mod swar;
pub mod table;
pub mod text;

pub mod bench;
pub mod exact;
