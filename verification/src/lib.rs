//! Earliest-arrival travel times over a public-transit network.
//!
//! The crate turns a normalized schedule (stops, stop-times, trips, and the
//! supporting tables) into a compact direct-connection graph — one node per
//! station, one edge per pair of stations served consecutively by some trip —
//! and computes earliest-arrival tables over that graph with a bucketed
//! time-queue. Both the normalized schedule and the graph can be written to
//! and read back from a self-describing binary archive.

pub mod archive;
pub mod chunked;
pub mod codec;
pub mod connections;
pub mod engine;
pub mod export;
pub mod gtfs;
