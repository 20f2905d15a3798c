//! A single-node, append-only message broker core: a line-oriented command
//! protocol, a segmented write-ahead log with base64-framed records, bounded
//! backpressure decisions, and the counters the broker reports.
//!
//! This crate holds the broker's logic as verified functions; the surrounding
//! process (sockets, files, tasks) drives it and exchanges plain values with it.

pub mod codec;
pub mod config;
pub mod consumer;
pub mod ingress;
pub mod numeric;
pub mod protocol;
pub mod queue;
pub mod service;
pub mod stats;
pub mod text;
pub mod wal;
