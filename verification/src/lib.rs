//! Verified core of a per-process memory and CPU telemetry collector.
//!
//! The library samples raw text read from the operating system's process
//! table (handed in by the caller), classifies processes into logical
//! groups, tracks CPU-time deltas, coordinates a single-writer snapshot
//! cache, and aggregates and ranks the result for a metrics exposition
//! renderer.

pub mod aggregate;
pub mod cache;
pub mod classify;
pub mod cli;
pub mod config;
pub mod cpu;
pub mod enumerate;
pub mod sample;
pub mod system;
pub mod testdata;
pub mod text;
