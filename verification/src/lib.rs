//! Drives runs of the fresnel photon simulator and turns what they leave
//! behind (telemetry lines on stdout, time tags in parquet files) into
//! throughput figures.

pub mod text;
pub mod telemetry;
pub mod error;
pub mod tags;
pub mod run;
pub mod cpus;
