//! Geomagnetic activity feed parsing, incremental diffing, and
//! line-protocol encoding.

pub mod text;
pub mod num;
pub mod time;
pub mod influx;
pub mod kp_data;
