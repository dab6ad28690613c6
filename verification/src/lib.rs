//! Commit-watermark progression for one ingestion pipeline.
//!
//! Concurrent writers finish checkpoints out of order. This crate tracks the
//! highest checkpoint below which nothing is missing, and decides when that
//! boundary may move forward and be written to durable storage.
//!
//! - [`watermark`]: the watermark, and how a pending one stands to the one
//!   held.
//! - [`pending`]: the set of watermarks that wait to be folded in.
//! - [`scan`]: what one contiguity scan yields, as mathematics.
//! - [`scheduler`]: the state machine that a driver feeds with events.
//! - [`laws`]: what holds of all of it, proved.

pub mod laws;
pub mod pending;
pub mod scan;
pub mod scheduler;
pub mod watermark;
